//! Language dictionaries.
//!
//! A dictionary holds the normalized word list of one language twice:
//! as an exact-match automaton (daachorse's double-array Aho-Corasick)
//! for containment queries, and as the flat word list for
//! nearest-neighbor edit-distance queries (strsim's Levenshtein
//! distance).  Word lists come from Hunspell `.dic` files: one word
//! per line, a count header on the first line, optional affix
//! metadata after a `/`.

use vstd::prelude::*;
use crate::text::{chars_of, contains_string, nfkc, nfkc_of, string_from_chars, to_lower, lower_of};
use crate::clean::{trim_back_spec, trim_front_spec, trim_chars};

verus! {

/// The Levenshtein distance between two character sequences: the
/// least number of single-character insertions, deletions and
/// substitutions turning one into the other, by the standard
/// recurrence.
pub open spec fn lev(a: Seq<char>, b: Seq<char>) -> int
    decreases a.len() + b.len(),
{
    if a.len() == 0 {
        b.len() as int
    } else if b.len() == 0 {
        a.len() as int
    } else {
        let del = lev(a.drop_first(), b) + 1;
        let ins = lev(a, b.drop_first()) + 1;
        let sub = lev(a.drop_first(), b.drop_first()) + if a[0] == b[0] {
            0int
        } else {
            1int
        };
        let m = if del <= ins {
            del
        } else {
            ins
        };
        if m <= sub {
            m
        } else {
            sub
        }
    }
}

/// Relies on strsim::levenshtein: it computes the Levenshtein
/// distance between the character sequences of the two strings by the
/// standard dynamic program, insertions, deletions and substitutions
/// all costing one.
pub assume_specification[ strsim::levenshtein ](a: &str, b: &str) -> (r: usize)
    ensures
        r == lev(a@, b@),
;

#[verifier::external_type_specification]
#[verifier::external_body]
#[verifier::reject_recursive_types(V)]
pub struct ExDoubleArrayAhoCorasick<V>(daachorse::DoubleArrayAhoCorasick<V>);

#[verifier::external_type_specification]
#[verifier::external_body]
pub struct ExDaachorseError(daachorse::errors::DaachorseError);

/// The set of patterns an automaton was built from, as character
/// sequences.
pub uninterp spec fn dawg_patterns(d: daachorse::DoubleArrayAhoCorasick<u32>) -> Set<Seq<char>>;

/// Whether an automaton was built with the standard match kind, the
/// default, which its overlapping-match iterator requires.
pub uninterp spec fn dawg_standard(d: daachorse::DoubleArrayAhoCorasick<u32>) -> bool;

/// Whether daachorse's builder accepts a word list.  Its failure
/// conditions — the pattern count must convert to the value type and
/// the pattern lengths and automaton must fit the builder's scale
/// bounds — are functions of the pattern list alone, so the outcome
/// deserves a name.
pub uninterp spec fn dawg_buildable(ws: Seq<Seq<char>>) -> bool;

/// Relies on daachorse's DoubleArrayAhoCorasick::new: on success it
/// builds, with the default standard match kind, an automaton whose
/// pattern set is exactly the given words (UTF-8 encoding is
/// injective, so the byte patterns stored correspond one to one to
/// the character sequences given).  Whether it succeeds is determined
/// by the word list alone: the builder fails only on its documented
/// index-conversion and scale conditions.
#[verifier::external_body]
fn dawg_new(words: &Vec<String>) -> (r: Result<
    daachorse::DoubleArrayAhoCorasick<u32>,
    daachorse::errors::DaachorseError,
>)
    ensures
        r is Ok <==> dawg_buildable(words@.map_values(|w: String| w@)),
        r matches Ok(d) ==> dawg_patterns(d) == words@.map_values(|w: String| w@).to_set()
            && dawg_standard(d),
{
    daachorse::DoubleArrayAhoCorasick::new(words)
}

/// Whether `word` is a complete entry of the automaton: a containment
/// hit inside a longer entry does not count.
///
/// Relies on daachorse's find_overlapping_iter: with the standard
/// match kind it reports every occurrence of every pattern in the
/// haystack, so an occurrence spanning the whole word exists exactly
/// when the word itself is a pattern.
#[verifier::external_body]
pub fn contains_exact(dawg: &daachorse::DoubleArrayAhoCorasick<u32>, word: &str) -> (r: bool)
    requires
        dawg_standard(*dawg),
    ensures
        r == dawg_patterns(*dawg).contains(word@),
{
    dawg.find_overlapping_iter(word).any(|m| m.start() == 0 && m.end() == word.len())
}

/// Whether some entry of `word_list` lies within Levenshtein distance
/// `max_distance` of the query, after the query is lower-cased and
/// NFKC-normalized.
pub fn is_most_similar(word_list: &Vec<String>, query: &str, max_distance: usize) -> (r: bool)
    ensures
        r == exists|k: int|
            0 <= k < word_list@.len() && lev(
                nfkc_of(lower_of(query@)),
                (#[trigger] word_list@[k])@,
            ) <= max_distance,
{
    let low = to_lower(query);
    let norm = nfkc(low.as_str());
    let mut k: usize = 0;
    while k < word_list.len()
        invariant
            k <= word_list@.len(),
            norm@ == nfkc_of(lower_of(query@)),
            forall|m: int|
                0 <= m < k ==> lev(nfkc_of(lower_of(query@)), (#[trigger] word_list@[m])@)
                    > max_distance,
        decreases word_list@.len() - k,
    {
        let d = strsim::levenshtein(norm.as_str(), word_list[k].as_str());
        if d <= max_distance {
            return true;
        }
        k += 1;
    }
    false
}

/// The first line's content up to an optional `/`, which starts affix
/// metadata.
pub open spec fn before_slash(s: Seq<char>) -> Seq<char>
    decreases s.len(),
{
    if s.len() == 0 {
        Seq::empty()
    } else if s[0] == '/' {
        Seq::empty()
    } else {
        seq![s[0]] + before_slash(s.skip(1))
    }
}

/// `cur` without a trailing carriage return, as a line split keeps it.
pub open spec fn strip_cr(cur: Seq<char>) -> Seq<char> {
    if cur.len() > 0 && cur[cur.len() - 1] == '\r' {
        cur.take(cur.len() - 1)
    } else {
        cur
    }
}

/// The lines of `s`, split at `\n` or `\r\n`, the final line ending
/// optional, with `cur` the line under construction.
pub open spec fn lines_rec(s: Seq<char>, cur: Seq<char>) -> Seq<Seq<char>>
    decreases s.len(),
{
    if s.len() == 0 {
        if cur.len() > 0 {
            seq![cur]
        } else {
            Seq::empty()
        }
    } else if s[0] == '\n' {
        seq![strip_cr(cur)] + lines_rec(s.skip(1), Seq::empty())
    } else {
        lines_rec(s.skip(1), cur.push(s[0]))
    }
}

/// The lines of `s`.
pub open spec fn lines_spec(s: Seq<char>) -> Seq<Seq<char>> {
    lines_rec(s, Seq::empty())
}

/// The normalized dictionary entry a line yields: metadata cut at the
/// first `/`, whitespace trimmed, lower-cased, NFKC-normalized.
pub open spec fn norm_entry(line: Seq<char>) -> Seq<char> {
    nfkc_of(lower_of(trim_back_spec(trim_front_spec(before_slash(line)))))
}

/// The entries parsed from a list of word lines, in order of first
/// appearance: each line normalized, empty results dropped,
/// duplicates dropped.
pub open spec fn parse_dic_spec(ls: Seq<Seq<char>>) -> Seq<Seq<char>>
    decreases ls.len(),
{
    if ls.len() == 0 {
        Seq::empty()
    } else {
        let prefix = parse_dic_spec(ls.drop_last());
        let w = norm_entry(ls.last());
        if w.len() > 0 && !prefix.contains(w) {
            prefix.push(w)
        } else {
            prefix
        }
    }
}

/// The word lines of a Hunspell `.dic` file: all lines but the first,
/// which holds the word count.
pub open spec fn dic_lines(s: Seq<char>) -> Seq<Seq<char>> {
    let ls = lines_spec(s);
    if ls.len() == 0 {
        Seq::empty()
    } else {
        ls.skip(1)
    }
}

/// Parsed entries are never empty and never repeat.
pub proof fn lemma_parse_dic_wf(ls: Seq<Seq<char>>)
    ensures
        forall|k: int| 0 <= k < parse_dic_spec(ls).len() ==> (#[trigger] parse_dic_spec(ls)[k]).len() > 0,
        forall|k1: int, k2: int|
            0 <= k1 < k2 < parse_dic_spec(ls).len() ==> parse_dic_spec(ls)[k1] != parse_dic_spec(
                ls,
            )[k2],
    decreases ls.len(),
{
    if ls.len() > 0 {
        lemma_parse_dic_wf(ls.drop_last());
        let prefix = parse_dic_spec(ls.drop_last());
        let w = norm_entry(ls.last());
        if w.len() > 0 && !prefix.contains(w) {
            assert forall|k1: int, k2: int|
                0 <= k1 < k2 < prefix.push(w).len() implies prefix.push(w)[k1] != prefix.push(
                w,
            )[k2] by {
                if k2 < prefix.len() {
                    assert(prefix.push(w)[k1] == prefix[k1]);
                    assert(prefix.push(w)[k2] == prefix[k2]);
                } else {
                    assert(prefix.push(w)[k2] == w);
                    assert(prefix.push(w)[k1] == prefix[k1]);
                    assert(!prefix.contains(w));
                }
            }
        }
    }
}

/// Split `v` into its lines.
fn split_lines(v: &Vec<char>) -> (r: Vec<Vec<char>>)
    ensures
        r@.map_values(|l: Vec<char>| l@) == lines_spec(v@),
{
    let mut r: Vec<Vec<char>> = Vec::new();
    let mut cur: Vec<char> = Vec::new();
    let mut i: usize = 0;
    proof {
        assert(v@.skip(0) =~= v@);
        assert(r@.map_values(|l: Vec<char>| l@) =~= Seq::<Seq<char>>::empty());
        assert(Seq::<Seq<char>>::empty() + lines_rec(v@, cur@) =~= lines_rec(v@, cur@));
    }
    while i < v.len()
        invariant
            i <= v@.len(),
            lines_spec(v@) == r@.map_values(|l: Vec<char>| l@) + lines_rec(
                v@.skip(i as int),
                cur@,
            ),
        decreases v@.len() - i,
    {
        let ghost rest = v@.skip(i as int);
        let ghost rviews = r@.map_values(|l: Vec<char>| l@);
        let ghost cur_old = cur@;
        proof {
            assert(rest[0] == v@[i as int]);
            assert(rest.skip(1) =~= v@.skip(i + 1));
        }
        let c = v[i];
        if c == '\n' {
            let mut line = cur;
            if line.len() > 0 && line[line.len() - 1] == '\r' {
                line.pop();
                proof {
                    assert(line@ =~= strip_cr(cur_old));
                }
            }
            proof {
                assert(line@ == strip_cr(cur_old));
                assert(lines_rec(rest, cur_old) == seq![strip_cr(cur_old)] + lines_rec(
                    rest.skip(1),
                    Seq::empty(),
                ));
            }
            r.push(line);
            cur = Vec::new();
            proof {
                assert(r@.map_values(|l: Vec<char>| l@) =~= rviews.push(line@));
                assert(rviews + (seq![line@] + lines_rec(rest.skip(1), Seq::<char>::empty()))
                    =~= rviews.push(line@) + lines_rec(rest.skip(1), Seq::<char>::empty()));
                assert(cur@ =~= Seq::<char>::empty());
            }
            i += 1;
        } else {
            cur.push(c);
            proof {
                assert(cur@ == cur_old.push(c));
                assert(lines_rec(rest, cur_old) == lines_rec(rest.skip(1), cur_old.push(c)));
            }
            i += 1;
        }
    }
    proof {
        assert(v@.skip(i as int) =~= Seq::<char>::empty());
    }
    if cur.len() > 0 {
        let ghost rviews = r@.map_values(|l: Vec<char>| l@);
        let ghost cur_old = cur@;
        proof {
            assert(lines_rec(Seq::<char>::empty(), cur_old) =~= seq![cur_old]);
        }
        r.push(cur);
        proof {
            assert(r@.map_values(|l: Vec<char>| l@) =~= rviews.push(cur_old));
            assert(rviews + seq![cur_old] =~= rviews.push(cur_old));
            assert(lines_spec(v@) =~= r@.map_values(|l: Vec<char>| l@));
        }
    } else {
        proof {
            assert(lines_rec(Seq::<char>::empty(), cur@) =~= Seq::<Seq<char>>::empty());
            assert(lines_spec(v@) =~= r@.map_values(|l: Vec<char>| l@));
        }
    }
    r
}

/// The part of `line` before an optional `/`.
fn cut_slash(line: &Vec<char>) -> (r: Vec<char>)
    ensures
        r@ == before_slash(line@),
{
    let mut r: Vec<char> = Vec::new();
    let mut i: usize = 0;
    proof {
        assert(line@.skip(0) =~= line@);
        assert(r@ + before_slash(line@) =~= before_slash(line@));
    }
    while i < line.len() && line[i] != '/'
        invariant
            i <= line@.len(),
            before_slash(line@) == r@ + before_slash(line@.skip(i as int)),
            forall|m: int| 0 <= m < i ==> line@[m] != '/',
        decreases line@.len() - i,
    {
        let ghost rest = line@.skip(i as int);
        proof {
            assert(rest[0] == line@[i as int]);
            assert(rest.skip(1) =~= line@.skip(i + 1));
            assert(before_slash(rest) == seq![rest[0]] + before_slash(rest.skip(1)));
            assert(r@ + before_slash(rest) =~= r@.push(rest[0]) + before_slash(rest.skip(1)));
        }
        r.push(line[i]);
        i += 1;
    }
    proof {
        let rest = line@.skip(i as int);
        if i < line@.len() {
            assert(rest[0] == line@[i as int]);
            assert(before_slash(rest) =~= Seq::<char>::empty());
        } else {
            assert(rest =~= Seq::<char>::empty());
        }
        assert(before_slash(line@) =~= r@);
    }
    r
}

/// Parse the content of a Hunspell `.dic` file: skip the count line,
/// cut affix metadata at `/`, trim, lower-case and NFKC-normalize
/// each word, drop empty results, and keep the first occurrence of
/// each distinct word.
pub fn parse_hunspell_dic(content: &str) -> (r: Vec<String>)
    ensures
        r@.map_values(|x: String| x@) == parse_dic_spec(dic_lines(content@)),
        forall|k: int| 0 <= k < r@.len() ==> (#[trigger] r@[k])@.len() > 0,
        forall|k1: int, k2: int| 0 <= k1 < k2 < r@.len() ==> r@[k1]@ != r@[k2]@,
{
    let v = chars_of(content);
    let lines = split_lines(&v);
    let ghost all = lines@.map_values(|l: Vec<char>| l@);
    let mut words: Vec<String> = Vec::new();
    if lines.len() >= 1 {
        let mut j: usize = 1;
        proof {
            assert(all.take(1).skip(1) =~= Seq::<Seq<char>>::empty());
            assert(words@.map_values(|x: String| x@) =~= Seq::<Seq<char>>::empty());
        }
        while j < lines.len()
            invariant
                1 <= j <= lines@.len(),
                all == lines@.map_values(|l: Vec<char>| l@),
                all.len() == lines@.len(),
                words@.map_values(|x: String| x@) == parse_dic_spec(all.take(j as int).skip(1)),
            decreases lines@.len() - j,
        {
            let ghost wviews = words@.map_values(|x: String| x@);
            let cut = cut_slash(&lines[j]);
            let trimmed = trim_chars(&cut);
            let s0 = string_from_chars(&trimmed);
            let low = to_lower(s0.as_str());
            let nrm = nfkc(low.as_str());
            proof {
                assert(all[j as int] == lines@[j as int]@);
                assert(nrm@ == norm_entry(all[j as int]));
            }
            let keep = if nrm.as_str().is_empty() {
                false
            } else {
                !contains_string(&words, &nrm)
            };
            let ghost prev = all.take(j as int).skip(1);
            let ghost next = all.take(j + 1).skip(1);
            proof {
                assert(next.drop_last() =~= prev);
                assert(next.last() == all[j as int]);
            }
            if keep {
                words.push(nrm);
                proof {
                    assert(words@.map_values(|x: String| x@) =~= wviews.push(norm_entry(
                        all[j as int],
                    )));
                    assert(parse_dic_spec(next) == wviews.push(norm_entry(all[j as int])));
                }
            } else {
                proof {
                    assert(parse_dic_spec(next) == wviews);
                }
            }
            j += 1;
        }
        proof {
            assert(dic_lines(content@) == all.skip(1));
            assert(all.take(all.len() as int).skip(1) =~= all.skip(1));
        }
    } else {
        proof {
            assert(dic_lines(content@) =~= Seq::<Seq<char>>::empty());
            assert(words@.map_values(|x: String| x@) =~= Seq::<Seq<char>>::empty());
        }
    }
    proof {
        lemma_parse_dic_wf(dic_lines(content@));
        assert forall|k: int| 0 <= k < words@.len() implies (#[trigger] words@[k])@.len() > 0 by {
            assert(words@.map_values(|x: String| x@)[k] == words@[k]@);
        }
        assert forall|k1: int, k2: int| 0 <= k1 < k2 < words@.len() implies words@[k1]@
            != words@[k2]@ by {
            assert(words@.map_values(|x: String| x@)[k1] == words@[k1]@);
            assert(words@.map_values(|x: String| x@)[k2] == words@[k2]@);
        }
    }
    words
}

/// Why a dictionary could not be built.
#[derive(Clone, Copy, PartialEq, Eq, Structural, Debug)]
pub enum DictionaryError {
    /// A language's word list parsed to no entries at all.
    EmptyWordList,
    /// The automaton builder rejected a word list.
    AutomatonBuild,
}

/// One language's dictionary: the exact-match automaton and the flat
/// word list it was built from.
pub struct LanguageDictionary {
    /// The language code, as in "fr" or "en".
    pub lang: String,
    automaton: daachorse::DoubleArrayAhoCorasick<u32>,
    words: Vec<String>,
}

impl LanguageDictionary {
    /// The dictionary's entries, in load order.
    pub closed spec fn entries(self) -> Seq<Seq<char>> {
        self.words@.map_values(|w: String| w@)
    }

    /// The language code this dictionary serves.
    pub closed spec fn lang_code(self) -> Seq<char> {
        self.lang@
    }

    /// The automaton agrees with the word list.
    pub closed spec fn wf(self) -> bool {
        dawg_standard(self.automaton) && dawg_patterns(self.automaton) == self.entries().to_set()
    }

    /// Build a dictionary over the given normalized word list.  It
    /// succeeds exactly when the automaton builder accepts the list.
    pub fn new(lang: String, words: Vec<String>) -> (r: Result<LanguageDictionary, DictionaryError>)
        ensures
            r is Ok <==> dawg_buildable(words@.map_values(|w: String| w@)),
            r matches Ok(d) ==> d.wf() && d.entries() == words@.map_values(|w: String| w@)
                && d.lang_code() == lang@,
    {
        match dawg_new(&words) {
            Ok(a) => Ok(LanguageDictionary { lang, automaton: a, words }),
            Err(_) => Err(DictionaryError::AutomatonBuild),
        }
    }

    /// Whether `word` is exactly one of the entries.
    pub fn contains(&self, word: &str) -> (r: bool)
        requires
            self.wf(),
        ensures
            r == self.entries().contains(word@),
    {
        let r = contains_exact(&self.automaton, word);
        proof {
            if self.entries().to_set().contains(word@) {
                assert(self.entries().contains(word@));
            }
            if self.entries().contains(word@) {
                assert(self.entries().to_set().contains(word@));
            }
        }
        r
    }

    /// Whether some entry lies within Levenshtein distance
    /// `max_distance` of the lower-cased, NFKC-normalized query.
    pub fn fuzzy_contains(&self, query: &str, max_distance: usize) -> (r: bool)
        ensures
            r == exists|k: int|
                0 <= k < self.entries().len() && lev(
                    nfkc_of(lower_of(query@)),
                    #[trigger] self.entries()[k],
                ) <= max_distance,
    {
        let r = is_most_similar(&self.words, query, max_distance);
        proof {
            let q = nfkc_of(lower_of(query@));
            if r {
                let k = choose|k: int|
                    0 <= k < self.words@.len() && lev(q, (#[trigger] self.words@[k])@)
                        <= max_distance;
                assert(self.entries()[k] == self.words@[k]@);
            } else {
                assert forall|k: int| 0 <= k < self.entries().len() implies !(lev(
                    q,
                    #[trigger] self.entries()[k],
                ) <= max_distance) by {
                    assert(self.entries()[k] == self.words@[k]@);
                }
            }
        }
        r
    }
}

/// Build one dictionary per language from raw `.dic` file contents,
/// handed as `(language code, file content)` pairs.  Every language
/// must yield a non-empty word list and a well-built automaton;
/// otherwise the whole load fails, as a missing dictionary is a fatal
/// startup error.  It succeeds exactly when every language's content
/// parses to a non-empty word list that the automaton builder
/// accepts.
pub fn build_dictionaries(inputs: Vec<(String, String)>) -> (r: Result<
    Vec<LanguageDictionary>,
    DictionaryError,
>)
    ensures
        r is Ok <==> forall|k: int|
            0 <= k < inputs@.len() ==> (#[trigger] parse_dic_spec(
                dic_lines(inputs@[k].1@),
            )).len() > 0 && dawg_buildable(parse_dic_spec(dic_lines(inputs@[k].1@))),
        r matches Ok(ds) ==> ds@.len() == inputs@.len() && forall|k: int|
            0 <= k < ds@.len() ==> (#[trigger] ds@[k]).wf() && ds@[k].lang_code() == inputs@[k].0@
                && ds@[k].entries() == parse_dic_spec(dic_lines(inputs@[k].1@)),
        r == Err::<Vec<LanguageDictionary>, DictionaryError>(DictionaryError::EmptyWordList)
            ==> exists|k: int|
            0 <= k < inputs@.len() && (#[trigger] parse_dic_spec(dic_lines(inputs@[k].1@))).len()
                == 0,
        r == Err::<Vec<LanguageDictionary>, DictionaryError>(DictionaryError::AutomatonBuild)
            ==> exists|k: int|
            0 <= k < inputs@.len() && !dawg_buildable(
                #[trigger] parse_dic_spec(dic_lines(inputs@[k].1@)),
            ),
{
    let mut ds: Vec<LanguageDictionary> = Vec::new();
    let mut i: usize = 0;
    while i < inputs.len()
        invariant
            i <= inputs@.len(),
            ds@.len() == i,
            forall|k: int|
                0 <= k < ds@.len() ==> (#[trigger] ds@[k]).wf() && ds@[k].lang_code() == inputs@[k].0@
                    && ds@[k].entries() == parse_dic_spec(dic_lines(inputs@[k].1@)),
            forall|k: int|
                0 <= k < i ==> (#[trigger] parse_dic_spec(dic_lines(inputs@[k].1@))).len() > 0
                    && dawg_buildable(parse_dic_spec(dic_lines(inputs@[k].1@))),
        decreases inputs@.len() - i,
    {
        let lang = inputs[i].0.clone();
        let words = parse_hunspell_dic(inputs[i].1.as_str());
        proof {
            assert(words@.map_values(|x: String| x@).len() == words@.len());
        }
        if words.len() == 0 {
            proof {
                assert(parse_dic_spec(dic_lines(inputs@[i as int].1@)).len() == 0);
            }
            return Err(DictionaryError::EmptyWordList);
        }
        match LanguageDictionary::new(lang, words) {
            Ok(d) => {
                ds.push(d);
            },
            Err(_) => {
                proof {
                    assert(!dawg_buildable(parse_dic_spec(dic_lines(inputs@[i as int].1@))));
                }
                return Err(DictionaryError::AutomatonBuild);
            },
        }
        i += 1;
    }
    Ok(ds)
}

} // verus!
