//! Substring search over bytes.

use vstd::prelude::*;

verus! {

/// `pat` stands in `doc` at byte index `pos`.
pub open spec fn matches_at(doc: Seq<u8>, pat: Seq<u8>, pos: int) -> bool {
    &&& 0 <= pos
    &&& pos + pat.len() <= doc.len()
    &&& doc.subrange(pos, pos + pat.len()) == pat
}

/// The least index at or after `from` where `pat` stands in `doc`, if there is one.
pub open spec fn first_match(doc: Seq<u8>, pat: Seq<u8>, from: int) -> Option<int>
    recommends
        0 <= from,
    decreases doc.len() + 1 - from,
{
    if from < 0 || from + pat.len() > doc.len() {
        None
    } else if matches_at(doc, pat, from) {
        Some(from)
    } else {
        first_match(doc, pat, from + 1)
    }
}

/// Every index at or after `from` where `pat` stands in `doc`, in increasing order.
pub open spec fn matches_from(doc: Seq<u8>, pat: Seq<u8>, from: int) -> Seq<int>
    recommends
        0 <= from,
    decreases doc.len() + 1 - from,
{
    if from < 0 || from + pat.len() > doc.len() {
        Seq::empty()
    } else if matches_at(doc, pat, from) {
        seq![from] + matches_from(doc, pat, from + 1)
    } else {
        matches_from(doc, pat, from + 1)
    }
}

/// `first_match` returns a match, nothing before it matches, and it returns
/// `None` only where nothing at or after `from` matches.
pub proof fn lemma_first_match(doc: Seq<u8>, pat: Seq<u8>, from: int)
    requires
        0 <= from,
    ensures
        match first_match(doc, pat, from) {
            Some(p) => {
                &&& from <= p
                &&& matches_at(doc, pat, p)
                &&& forall|q: int| from <= q < p ==> !matches_at(doc, pat, q)
            },
            None => forall|q: int| from <= q ==> !matches_at(doc, pat, q),
        },
    decreases doc.len() + 1 - from,
{
    if from + pat.len() <= doc.len() && !matches_at(doc, pat, from) {
        lemma_first_match(doc, pat, from + 1);
    }
}

/// The positions that `matches_from` lists are exactly the matches at or
/// after `from`, and they come in strictly increasing order.
pub proof fn lemma_matches_from(doc: Seq<u8>, pat: Seq<u8>, from: int)
    requires
        0 <= from,
    ensures
        forall|p: int| #[trigger]
            matches_from(doc, pat, from).contains(p) ==> from <= p && matches_at(doc, pat, p),
        forall|p: int|
            from <= p && #[trigger] matches_at(doc, pat, p) ==> matches_from(
                doc,
                pat,
                from,
            ).contains(p),
        forall|i: int, j: int|
            0 <= i < j < matches_from(doc, pat, from).len() ==> matches_from(doc, pat, from)[i]
                < matches_from(doc, pat, from)[j],
    decreases doc.len() + 1 - from,
{
    let all = matches_from(doc, pat, from);
    if from + pat.len() <= doc.len() {
        lemma_matches_from(doc, pat, from + 1);
        let rest = matches_from(doc, pat, from + 1);
        if matches_at(doc, pat, from) {
            let head = seq![from];
            assert(all == head + rest);
            assert(all.len() == rest.len() + 1);
            assert(all[0] == from);
            assert forall|k: int| 0 <= k < rest.len() implies #[trigger] all[k + 1] == rest[k] by {}
            assert forall|k: int| 0 <= k < rest.len() implies from < #[trigger] rest[k] by {
                assert(rest.contains(rest[k]));
            }
            assert forall|p: int| all.contains(p) implies from <= p && matches_at(doc, pat, p) by {
                let i = choose|i: int| 0 <= i < all.len() && all[i] == p;
                if i > 0 {
                    assert(all[(i - 1) + 1] == rest[i - 1]);
                    assert(rest.contains(p));
                }
            }
            assert forall|p: int| from <= p && matches_at(doc, pat, p) implies all.contains(p) by {
                if p == from {
                    assert(all[0] == p);
                } else {
                    assert(rest.contains(p));
                    let i = choose|i: int| 0 <= i < rest.len() && rest[i] == p;
                    assert(all[i + 1] == p);
                }
            }
            assert forall|i: int, j: int| 0 <= i < j < all.len() implies all[i] < all[j] by {
                assert(all[(j - 1) + 1] == rest[j - 1]);
                if i > 0 {
                    assert(all[(i - 1) + 1] == rest[i - 1]);
                }
            }
        } else {
            assert(all == rest);
        }
    } else {
        assert(all.len() == 0);
    }
}

/// The matches at or after `from` are the first of them followed by the
/// matches after it.
pub proof fn lemma_matches_from_unfold(doc: Seq<u8>, pat: Seq<u8>, from: int)
    requires
        0 <= from,
    ensures
        match first_match(doc, pat, from) {
            Some(p) => matches_from(doc, pat, from) == seq![p] + matches_from(doc, pat, p + 1),
            None => matches_from(doc, pat, from) == Seq::<int>::empty(),
        },
    decreases doc.len() + 1 - from,
{
    if from + pat.len() <= doc.len() && !matches_at(doc, pat, from) {
        lemma_matches_from_unfold(doc, pat, from + 1);
    }
}

/// Indices where nothing matches can be left out of the scan.
pub proof fn lemma_matches_from_skip(doc: Seq<u8>, pat: Seq<u8>, from: int, to: int)
    requires
        0 <= from <= to,
        forall|q: int| from <= q < to ==> !matches_at(doc, pat, q),
    ensures
        matches_from(doc, pat, from) == matches_from(doc, pat, to),
    decreases to - from,
{
    if from < to {
        lemma_matches_from_skip(doc, pat, from + 1, to);
        if from + pat.len() > doc.len() {
            lemma_matches_from(doc, pat, to);
            assert(matches_from(doc, pat, to) =~= Seq::<int>::empty()) by {
                if matches_from(doc, pat, to).len() > 0 {
                    assert(matches_from(doc, pat, to).contains(matches_from(doc, pat, to)[0]));
                }
            }
        }
    }
}

/// `pat` stands somewhere in `text`.
pub open spec fn occurs(text: Seq<u8>, pat: Seq<u8>) -> bool {
    exists|p: int| matches_at(text, pat, p)
}

/// What stands in a part of a text stands in the text.
pub proof fn lemma_occurs_within(before: Seq<u8>, text: Seq<u8>, after: Seq<u8>, pat: Seq<u8>)
    requires
        occurs(text, pat),
    ensures
        occurs(before + text + after, pat),
{
    let p = choose|p: int| matches_at(text, pat, p);
    let whole = before + text + after;
    assert(whole.subrange(before.len() + p, before.len() + p + pat.len()) =~= text.subrange(
        p,
        p + pat.len(),
    ));
    assert(matches_at(whole, pat, before.len() + p));
}

/// A pattern that holds a byte cannot stand in a text without that byte.
pub proof fn lemma_absent_without_byte(text: Seq<u8>, pat: Seq<u8>, at: int)
    requires
        0 <= at < pat.len(),
        forall|i: int| 0 <= i < text.len() ==> #[trigger] text[i] != pat[at],
    ensures
        !occurs(text, pat),
{
    assert forall|p: int| !matches_at(text, pat, p) by {
        if matches_at(text, pat, p) {
            assert(text.subrange(p, p + pat.len())[at] == text[p + at]);
        }
    }
}

/// Whether `pat` stands in `doc` at `pos`.
pub fn matches_here(doc: &[u8], pat: &[u8], pos: usize) -> (r: bool)
    requires
        pos + pat@.len() <= doc@.len(),
    ensures
        r == matches_at(doc@, pat@, pos as int),
{
    let n: usize = doc.len();
    let m: usize = pat.len();
    let mut i: usize = 0;
    while i < m
        invariant
            n == doc@.len(),
            m == pat@.len(),
            i <= m,
            pos + m <= doc@.len(),
            forall|j: int| 0 <= j < i ==> doc@[pos + j] == #[trigger] pat@[j],
        decreases m - i,
    {
        if doc[pos + i] != pat[i] {
            assert(doc@.subrange(pos as int, pos + m)[i as int] != pat@[i as int]);
            return false;
        }
        i = i + 1;
    }
    assert(doc@.subrange(pos as int, pos + m) =~= pat@);
    true
}

/// Finds the first place at or after `from` where `pat` stands in `doc`.
pub fn find_from(doc: &[u8], pat: &[u8], from: usize) -> (r: Option<usize>)
    ensures
        match r {
            Some(p) => first_match(doc@, pat@, from as int) == Some(p as int),
            None => first_match(doc@, pat@, from as int) is None,
        },
{
    let n: usize = doc.len();
    let m: usize = pat.len();
    if m > n || from > n - m {
        return None;
    }
    let last: usize = n - m;
    let mut pos: usize = from;
    loop
        invariant
            n == doc@.len(),
            m == pat@.len(),
            last == n - m,
            from <= pos <= last,
            first_match(doc@, pat@, from as int) == first_match(doc@, pat@, pos as int),
        decreases last - pos,
    {
        if matches_here(doc, pat, pos) {
            return Some(pos);
        }
        if pos == last {
            return None;
        }
        pos = pos + 1;
    }
}

} // verus!
