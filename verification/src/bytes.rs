//! Searching and comparing byte sequences.

use vstd::prelude::*;
use vstd::slice::{slice_subrange, slice_to_vec};

verus! {

/// Whether `pat` occurs in `s` starting at index `i`.
pub open spec fn occurs_at(s: Seq<u8>, pat: Seq<u8>, i: int) -> bool {
    &&& 0 <= i
    &&& i + pat.len() <= s.len()
    &&& s.subrange(i, i + pat.len()) == pat
}

/// Whether `pat` occurs anywhere in `s`.
pub open spec fn contains(s: Seq<u8>, pat: Seq<u8>) -> bool {
    exists|i: int| occurs_at(s, pat, i)
}

/// Tests whether `pat` occurs in `s` at index `i`.
pub fn matches_at(s: &[u8], pat: &[u8], i: usize) -> (r: bool)
    ensures
        r == occurs_at(s@, pat@, i as int),
{
    if pat.len() > s.len() || i > s.len() - pat.len() {
        return false;
    }
    let mut k: usize = 0;
    while k < pat.len()
        invariant
            k <= pat.len(),
            i + pat.len() <= s.len(),
            forall|j: int| 0 <= j < k ==> s@[i + j] == pat@[j],
        decreases pat.len() - k,
    {
        if s[i + k] != pat[k] {
            assert(s@.subrange(i as int, i + pat.len())[k as int] != pat@[k as int]);
            return false;
        }
        k += 1;
    }
    assert(s@.subrange(i as int, i + pat.len()) =~= pat@);
    true
}

/// The least index at or after `from` at which `pat` occurs in `s`.
pub open spec fn search_from(s: Seq<u8>, pat: Seq<u8>, from: int) -> Option<int>
    decreases s.len() - from + 1,
{
    if from < 0 || from + pat.len() > s.len() {
        None
    } else if occurs_at(s, pat, from) {
        Some(from)
    } else {
        search_from(s, pat, from + 1)
    }
}

/// The index of the first occurrence of `pat` in `s`, if there is one.
pub open spec fn first_occurrence(s: Seq<u8>, pat: Seq<u8>) -> Option<int> {
    search_from(s, pat, 0)
}

/// `search_from` returns the least occurrence at or after `from`, and
/// `None` exactly when there is none.
pub proof fn lemma_search_from(s: Seq<u8>, pat: Seq<u8>, from: int)
    requires
        0 <= from,
    ensures
        match search_from(s, pat, from) {
            Some(i) => from <= i && occurs_at(s, pat, i) && forall|j: int|
                from <= j < i ==> !occurs_at(s, pat, j),
            None => forall|j: int| from <= j ==> !occurs_at(s, pat, j),
        },
    decreases s.len() - from + 1,
{
    if from + pat.len() > s.len() {
    } else if occurs_at(s, pat, from) {
    } else {
        lemma_search_from(s, pat, from + 1);
    }
}

/// An occurrence with none before it is the first occurrence.
pub proof fn lemma_first_occurrence_is(s: Seq<u8>, pat: Seq<u8>, i: int)
    requires
        occurs_at(s, pat, i),
        forall|j: int| 0 <= j < i ==> !occurs_at(s, pat, j),
    ensures
        first_occurrence(s, pat) == Some(i),
{
    lemma_search_from(s, pat, 0);
}

/// A sequence without any occurrence has no first occurrence.
pub proof fn lemma_first_occurrence_none(s: Seq<u8>, pat: Seq<u8>)
    requires
        forall|j: int| 0 <= j ==> !occurs_at(s, pat, j),
    ensures
        first_occurrence(s, pat) is None,
{
    lemma_search_from(s, pat, 0);
}

/// Finds the first occurrence of `pat` in `s`.
pub fn find(s: &[u8], pat: &[u8]) -> (r: Option<usize>)
    ensures
        match r {
            Some(i) => first_occurrence(s@, pat@) == Some(i as int),
            None => first_occurrence(s@, pat@) is None,
        },
{
    if pat.len() > s.len() {
        proof {
            lemma_first_occurrence_none(s@, pat@);
        }
        return None;
    }
    let last: usize = s.len() - pat.len();
    let mut i: usize = 0;
    loop
        invariant
            i <= last,
            last == s.len() - pat.len(),
            forall|j: int| 0 <= j < i ==> !occurs_at(s@, pat@, j),
        decreases last - i,
    {
        if matches_at(s, pat, i) {
            proof {
                lemma_first_occurrence_is(s@, pat@, i as int);
            }
            return Some(i);
        }
        if i == last {
            proof {
                lemma_first_occurrence_none(s@, pat@);
            }
            return None;
        }
        i += 1;
    }
}

/// The pieces of `s` between successive occurrences of the separator
/// `sep`, scanning from the left. There is always at least one piece; a
/// sequence without the separator is its own single piece, and so is any
/// sequence when the separator is empty.
pub open spec fn split(s: Seq<u8>, sep: Seq<u8>) -> Seq<Seq<u8>>
    decreases s.len(),
{
    match first_occurrence(s, sep) {
        Some(i) if sep.len() > 0 && 0 <= i && i + sep.len() <= s.len() => seq![s.subrange(0, i)]
            + split(s.subrange(i + sep.len(), s.len() as int), sep),
        _ => seq![s],
    }
}

/// A split always has at least one piece.
pub proof fn lemma_split_nonempty(s: Seq<u8>, sep: Seq<u8>)
    ensures
        split(s, sep).len() > 0,
    decreases s.len(),
{
    match first_occurrence(s, sep) {
        Some(i) if sep.len() > 0 && 0 <= i && i + sep.len() <= s.len() => {
            lemma_split_nonempty(s.subrange(i + sep.len(), s.len() as int), sep);
        },
        _ => {},
    }
}

/// The views of a vector of byte vectors.
pub open spec fn views(v: Seq<Vec<u8>>) -> Seq<Seq<u8>> {
    Seq::new(v.len(), |i: int| v[i]@)
}

/// Splits `s` on every occurrence of `sep`, copying the pieces.
pub fn split_on(s: &[u8], sep: &[u8]) -> (r: Vec<Vec<u8>>)
    ensures
        views(r@) == split(s@, sep@),
{
    let mut out: Vec<Vec<u8>> = Vec::new();
    if sep.len() == 0 {
        out.push(slice_to_vec(s));
        assert(views(out@) =~= seq![s@]);
        return out;
    }
    let mut pos: usize = 0;
    proof {
        assert(s@.subrange(0, s.len() as int) =~= s@);
        assert(views(out@) + split(s@, sep@) =~= split(s@, sep@));
    }
    loop
        invariant
            pos <= s.len(),
            sep@.len() > 0,
            split(s@, sep@) == views(out@) + split(s@.subrange(pos as int, s.len() as int), sep@),
        decreases s.len() - pos,
    {
        let rest = slice_subrange(s, pos, s.len());
        match find(rest, sep) {
            Some(i) => {
                proof {
                    lemma_search_from(rest@, sep@, 0);
                }
                let piece = slice_to_vec(slice_subrange(rest, 0, i));
                let ghost before = views(out@);
                out.push(piece);
                let next: usize = pos + i + sep.len();
                proof {
                    let tail = rest@.subrange(i + sep@.len(), rest@.len() as int);
                    assert(tail =~= s@.subrange(next as int, s.len() as int));
                    assert(views(out@) =~= before + seq![rest@.subrange(0, i as int)]);
                    assert(split(rest@, sep@) == seq![rest@.subrange(0, i as int)] + split(
                        tail,
                        sep@,
                    ));
                }
                pos = next;
            },
            None => {
                let ghost before = views(out@);
                out.push(slice_to_vec(rest));
                proof {
                    assert(views(out@) =~= before + seq![rest@]);
                }
                return out;
            },
        }
    }
}

/// Appends a copy of `src` to `out`.
pub fn append(out: &mut Vec<u8>, src: &[u8])
    ensures
        final(out)@ == old(out)@ + src@,
{
    let mut k: usize = 0;
    while k < src.len()
        invariant
            k <= src.len(),
            out@ == old(out)@ + src@.take(k as int),
        decreases src.len() - k,
    {
        out.push(src[k]);
        k += 1;
        assert(out@ =~= old(out)@ + src@.take(k as int));
    }
    assert(src@.take(k as int) =~= src@);
}

/// Compares two byte slices.
pub fn equal(a: &[u8], b: &[u8]) -> (r: bool)
    ensures
        r == (a@ == b@),
{
    if a.len() != b.len() {
        return false;
    }
    let r = matches_at(a, b, 0);
    proof {
        assert(a@.subrange(0, a@.len() as int) =~= a@);
    }
    r
}

/// The lower-case form of an ASCII letter; any other byte is unchanged.
pub open spec fn ascii_lower(b: u8) -> u8 {
    if 65 <= b <= 90 {
        (b + 32) as u8
    } else {
        b
    }
}

/// Whether `a` and `b` are equal once ASCII letters are lower-cased.
pub open spec fn eq_ignore_case(a: Seq<u8>, b: Seq<u8>) -> bool {
    &&& a.len() == b.len()
    &&& forall|i: int| 0 <= i < a.len() ==> ascii_lower(#[trigger] a[i]) == ascii_lower(b[i])
}

/// Lower-cases one ASCII letter.
pub fn to_ascii_lower(b: u8) -> (r: u8)
    ensures
        r == ascii_lower(b),
{
    if 65 <= b && b <= 90 {
        b + 32
    } else {
        b
    }
}

/// Compares two byte slices without regard to the case of ASCII letters.
pub fn equal_ignore_case(a: &[u8], b: &[u8]) -> (r: bool)
    ensures
        r == eq_ignore_case(a@, b@),
{
    if a.len() != b.len() {
        return false;
    }
    let mut k: usize = 0;
    while k < a.len()
        invariant
            k <= a.len(),
            a.len() == b.len(),
            forall|i: int| 0 <= i < k ==> ascii_lower(#[trigger] a@[i]) == ascii_lower(b@[i]),
        decreases a.len() - k,
    {
        if to_ascii_lower(a[k]) != to_ascii_lower(b[k]) {
            return false;
        }
        k += 1;
    }
    true
}

} // verus!
