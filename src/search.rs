use vstd::prelude::*;

verus! {

/// `pat` occurs in `text` starting at index `i`.
pub open spec fn occurs_at(text: Seq<u8>, pat: Seq<u8>, i: int) -> bool {
    &&& 0 <= i
    &&& i + pat.len() <= text.len()
    &&& text.subrange(i, i + pat.len()) == pat
}

/// `i` is the leftmost index at which `pat` occurs in `text`.
pub open spec fn is_first_occurrence(text: Seq<u8>, pat: Seq<u8>, i: int) -> bool {
    &&& occurs_at(text, pat, i)
    &&& forall|j: int| 0 <= j < i ==> !#[trigger] occurs_at(text, pat, j)
}

/// The leftmost index at which `pat` occurs in `text`, if it occurs at all.
pub open spec fn first_occurrence(text: Seq<u8>, pat: Seq<u8>) -> Option<int> {
    if exists|i: int| is_first_occurrence(text, pat, i) {
        Some(choose|i: int| is_first_occurrence(text, pat, i))
    } else {
        None
    }
}

/// Relies on twoway::find_bytes, documented to find the first occurrence of
/// `pattern` in `text` and to return the index where it starts.
#[verifier::external_body]
pub(crate) fn find_bytes(text: &[u8], pattern: &[u8]) -> (r: Option<usize>)
    ensures
        match r {
            Some(i) => is_first_occurrence(text@, pattern@, i as int),
            None => forall|j: int| !#[trigger] occurs_at(text@, pattern@, j),
        },
{
    twoway::find_bytes(text, pattern)
}

/// There is at most one leftmost occurrence.
pub proof fn lemma_first_occurrence_unique(text: Seq<u8>, pat: Seq<u8>, i: int, k: int)
    requires
        is_first_occurrence(text, pat, i),
        is_first_occurrence(text, pat, k),
    ensures
        i == k,
{
    if i < k {
        assert(!occurs_at(text, pat, i));
    } else if k < i {
        assert(!occurs_at(text, pat, k));
    }
}

/// A leftmost occurrence is what `first_occurrence` names.
pub proof fn lemma_first_occurrence_is(text: Seq<u8>, pat: Seq<u8>, i: int)
    requires
        is_first_occurrence(text, pat, i),
    ensures
        first_occurrence(text, pat) == Some(i),
{
    let k = choose|k: int| is_first_occurrence(text, pat, k);
    lemma_first_occurrence_unique(text, pat, i, k);
}

/// Where `pat` occurs nowhere, there is no first occurrence.
pub proof fn lemma_no_occurrence(text: Seq<u8>, pat: Seq<u8>)
    requires
        forall|j: int| !#[trigger] occurs_at(text, pat, j),
    ensures
        first_occurrence(text, pat) is None,
{
    if exists|i: int| is_first_occurrence(text, pat, i) {
        let k = choose|k: int| is_first_occurrence(text, pat, k);
        assert(occurs_at(text, pat, k));
    }
}

/// Bytes appended after a leftmost occurrence do not move it.
pub proof fn lemma_first_occurrence_extend(a: Seq<u8>, b: Seq<u8>, pat: Seq<u8>, i: int)
    requires
        is_first_occurrence(a, pat, i),
    ensures
        is_first_occurrence(a + b, pat, i),
        first_occurrence(a + b, pat) == Some(i),
{
    let ab = a + b;
    assert(ab.subrange(i, i + pat.len()) =~= a.subrange(i, i + pat.len()));
    assert forall|j: int| 0 <= j < i implies !#[trigger] occurs_at(ab, pat, j) by {
        if occurs_at(ab, pat, j) {
            assert(ab.subrange(j, j + pat.len()) =~= a.subrange(j, j + pat.len()));
            assert(occurs_at(a, pat, j));
        }
    }
    lemma_first_occurrence_is(ab, pat, i);
}

/// An occurrence in a suffix of `text` is an occurrence in `text`, shifted.
pub proof fn lemma_occurs_in_suffix(text: Seq<u8>, pat: Seq<u8>, from: int, q: int)
    requires
        0 <= from <= text.len(),
        0 <= q,
    ensures
        occurs_at(text.subrange(from, text.len() as int), pat, q) <==> occurs_at(text, pat, from + q),
{
    let sub = text.subrange(from, text.len() as int);
    if q + pat.len() <= sub.len() {
        assert(sub.subrange(q, q + pat.len()) =~= text.subrange(from + q, from + q + pat.len()));
    }
}

/// A leftmost occurrence in a suffix, with none before the suffix, is the leftmost
/// occurrence in the whole text.
pub proof fn lemma_first_in_suffix(text: Seq<u8>, pat: Seq<u8>, from: int, j: int)
    requires
        0 <= from <= text.len(),
        is_first_occurrence(text.subrange(from, text.len() as int), pat, j),
        forall|p: int| 0 <= p < from ==> !#[trigger] occurs_at(text, pat, p),
    ensures
        is_first_occurrence(text, pat, from + j),
{
    lemma_occurs_in_suffix(text, pat, from, j);
    assert forall|p: int| 0 <= p < from + j implies !#[trigger] occurs_at(text, pat, p) by {
        if p >= from {
            lemma_occurs_in_suffix(text, pat, from, p - from);
        }
    }
}

/// No occurrence in a suffix, and none before it: no occurrence at all.
pub proof fn lemma_none_in_suffix(text: Seq<u8>, pat: Seq<u8>, from: int)
    requires
        0 <= from <= text.len(),
        forall|q: int| !#[trigger] occurs_at(text.subrange(from, text.len() as int), pat, q),
        forall|p: int| 0 <= p < from ==> !#[trigger] occurs_at(text, pat, p),
    ensures
        forall|p: int| !#[trigger] occurs_at(text, pat, p),
{
    assert forall|p: int| !#[trigger] occurs_at(text, pat, p) by {
        if p >= from {
            lemma_occurs_in_suffix(text, pat, from, p - from);
        }
    }
}

/// Where the pattern fits before the end of `a`, appending bytes does not change
/// whether it occurs there.
pub proof fn lemma_occurs_append(a: Seq<u8>, b: Seq<u8>, pat: Seq<u8>, p: int)
    requires
        0 <= p,
        p + pat.len() <= a.len(),
    ensures
        occurs_at(a + b, pat, p) <==> occurs_at(a, pat, p),
{
    assert((a + b).subrange(p, p + pat.len()) =~= a.subrange(p, p + pat.len()));
}

} // verus!
