//! Applying grammar-correction replacements.
//!
//! The grammar-correction service reports matches as a zero-based
//! *character* offset, a character length, and a replacement string.
//! Positions therefore count Unicode scalar values, never bytes; this
//! module splices replacements in the character domain, so a
//! multi-byte character ahead of a match cannot shift it.  All
//! replacements are applied in descending offset order, so an earlier
//! splice cannot invalidate a later match's offset.

use vstd::prelude::*;
use crate::text::{chars_of, string_from_chars};

verus! {

/// One replacement reported by the grammar-correction service:
/// `length` characters starting at character `offset` are replaced by
/// `replacement` (the first, authoritative candidate).
pub struct Correction {
    pub offset: usize,
    pub length: usize,
    pub replacement: String,
}

/// `text` with the characters `[offset, offset + length)` replaced.
/// A span that does not lie within the text leaves it unchanged.
pub open spec fn apply_one_spec(text: Seq<char>, offset: int, length: int, rep: Seq<char>) -> Seq<
    char,
> {
    if 0 <= offset && offset + length <= text.len() {
        text.take(offset) + rep + text.skip(offset + length)
    } else {
        text
    }
}

/// The corrections applied in list order, each to the result of the
/// previous one.
pub open spec fn apply_all_spec(text: Seq<char>, cs: Seq<Correction>) -> Seq<char>
    decreases cs.len(),
{
    if cs.len() == 0 {
        text
    } else {
        apply_all_spec(
            apply_one_spec(text, cs[0].offset as int, cs[0].length as int, cs[0].replacement@),
            cs.drop_first(),
        )
    }
}

/// `x` inserted into `s` before the first element with a smaller
/// offset, after every element with an equal one.
pub open spec fn insert_desc(x: Correction, s: Seq<Correction>) -> Seq<Correction>
    decreases s.len(),
{
    if s.len() == 0 {
        seq![x]
    } else if x.offset > s[0].offset {
        seq![x] + s
    } else {
        seq![s[0]] + insert_desc(x, s.drop_first())
    }
}

/// The stable sort of `s` by descending offset: elements with equal
/// offsets keep their relative order.
pub open spec fn sort_desc_spec(s: Seq<Correction>) -> Seq<Correction>
    decreases s.len(),
{
    if s.len() == 0 {
        Seq::empty()
    } else {
        insert_desc(s.last(), sort_desc_spec(s.drop_last()))
    }
}

/// Replace the `length` characters of `text` starting at character
/// `offset` with `replacement`, counting Unicode scalar values.
pub fn apply_correction(text: &str, offset: usize, length: usize, replacement: &str) -> (r: String)
    ensures
        r@ == apply_one_spec(text@, offset as int, length as int, replacement@),
{
    let v = chars_of(text);
    let n = v.len();
    if offset > n || length > n - offset {
        return string_from_chars(&v);
    }
    let rep = chars_of(replacement);
    let mut out: Vec<char> = Vec::new();
    let mut i: usize = 0;
    while i < offset
        invariant
            i <= offset <= v@.len(),
            out@ == v@.take(i as int),
        decreases offset - i,
    {
        out.push(v[i]);
        proof {
            assert(out@ =~= v@.take(i + 1));
        }
        i += 1;
    }
    let mut j: usize = 0;
    while j < rep.len()
        invariant
            j <= rep@.len(),
            offset <= v@.len(),
            out@ == v@.take(offset as int) + rep@.take(j as int),
        decreases rep@.len() - j,
    {
        out.push(rep[j]);
        proof {
            assert(out@ =~= v@.take(offset as int) + rep@.take(j + 1));
        }
        j += 1;
    }
    proof {
        assert(rep@.take(rep@.len() as int) =~= rep@);
    }
    let mut m: usize = offset + length;
    while m < n
        invariant
            offset + length <= m <= n == v@.len(),
            out@ == v@.take(offset as int) + rep@ + v@.subrange(offset + length, m as int),
        decreases n - m,
    {
        out.push(v[m]);
        proof {
            assert(out@ =~= v@.take(offset as int) + rep@ + v@.subrange(offset + length, m + 1));
        }
        m += 1;
    }
    proof {
        assert(v@.subrange(offset + length, n as int) =~= v@.skip(offset + length));
    }
    string_from_chars(&out)
}

/// `insert_desc` splits at the first strictly smaller offset.
proof fn lemma_insert_desc_at(x: Correction, s: Seq<Correction>, idx: int)
    requires
        0 <= idx <= s.len(),
        forall|m: int| 0 <= m < idx ==> x.offset <= (#[trigger] s[m]).offset,
        idx < s.len() ==> x.offset > s[idx].offset,
    ensures
        insert_desc(x, s) == s.take(idx) + seq![x] + s.skip(idx),
    decreases s.len(),
{
    if s.len() == 0 {
        assert(s.take(0) + seq![x] + s.skip(0) =~= seq![x]);
    } else if idx == 0 {
        assert(s.take(0) + seq![x] + s.skip(0) =~= seq![x] + s);
    } else {
        let t = s.drop_first();
        assert forall|m: int| 0 <= m < idx - 1 implies x.offset <= (#[trigger] t[m]).offset by {
            assert(t[m] == s[m + 1]);
        }
        assert(idx - 1 < t.len() ==> x.offset > t[idx - 1].offset);
        lemma_insert_desc_at(x, t, idx - 1);
        assert(seq![s[0]] + (t.take(idx - 1) + seq![x] + t.skip(idx - 1)) =~= s.take(idx)
            + seq![x] + s.skip(idx));
    }
}

/// Sort corrections by descending offset, stably.
fn sort_corrections(cs: &Vec<Correction>) -> (r: Vec<Correction>)
    ensures
        r@ == sort_desc_spec(cs@),
{
    let mut out: Vec<Correction> = Vec::new();
    let mut i: usize = 0;
    proof {
        assert(cs@.take(0) =~= Seq::<Correction>::empty());
    }
    while i < cs.len()
        invariant
            i <= cs@.len(),
            out@ == sort_desc_spec(cs@.take(i as int)),
        decreases cs@.len() - i,
    {
        let x = Correction {
            offset: cs[i].offset,
            length: cs[i].length,
            replacement: cs[i].replacement.clone(),
        };
        proof {
            assert(x == cs@[i as int]);
        }
        let mut idx: usize = 0;
        while idx < out.len() && x.offset <= out[idx].offset
            invariant
                idx <= out@.len(),
                forall|m: int| 0 <= m < idx ==> x.offset <= (#[trigger] out@[m]).offset,
            decreases out@.len() - idx,
        {
            idx += 1;
        }
        let ghost out_old = out@;
        proof {
            lemma_insert_desc_at(x, out@, idx as int);
        }
        out.insert(idx, x);
        proof {
            assert(out@ =~= out_old.take(idx as int) + seq![x] + out_old.skip(idx as int));
            let t = cs@.take(i + 1);
            assert(t.drop_last() =~= cs@.take(i as int));
            assert(t.last() == cs@[i as int]);
            assert(out@ == sort_desc_spec(cs@.take(i + 1)));
        }
        i += 1;
    }
    proof {
        assert(cs@.take(cs@.len() as int) =~= cs@);
    }
    out
}

/// Apply every correction to `text`, in descending offset order, with
/// corrections of equal offset applied in their given order.
pub fn apply_corrections(text: &str, corrections: &Vec<Correction>) -> (r: String)
    ensures
        r@ == apply_all_spec(text@, sort_desc_spec(corrections@)),
{
    let sorted = sort_corrections(corrections);
    let mut cur = text.to_owned();
    let mut i: usize = 0;
    proof {
        assert(sorted@.skip(0) =~= sorted@);
    }
    while i < sorted.len()
        invariant
            i <= sorted@.len(),
            apply_all_spec(text@, sorted@) == apply_all_spec(cur@, sorted@.skip(i as int)),
        decreases sorted@.len() - i,
    {
        let ghost rest = sorted@.skip(i as int);
        proof {
            assert(rest[0] == sorted@[i as int]);
            assert(rest.skip(1) =~= sorted@.skip(i + 1));
            assert(rest.drop_first() =~= rest.skip(1));
        }
        let next = apply_correction(
            cur.as_str(),
            sorted[i].offset,
            sorted[i].length,
            sorted[i].replacement.as_str(),
        );
        cur = next;
        i += 1;
    }
    proof {
        assert(sorted@.skip(sorted@.len() as int) =~= Seq::<Correction>::empty());
    }
    cur
}

} // verus!
