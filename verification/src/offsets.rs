//! Where the pages of a transcript end.

use vstd::prelude::*;
use vstd::string::*;
use crate::error::SplitError;
use crate::markers::{
    lemma_marker_shapes, lemma_markers_apart, message_container, postamble, CHUNK_SIZE,
    MESSAGE_CONTAINER, POSTAMBLE,
};
use crate::search::{
    find_from, first_match, lemma_first_match, lemma_matches_from, lemma_matches_from_unfold,
    matches_at, matches_from,
};

verus! {

/// A sequence of byte indices as mathematical integers.
pub open spec fn as_ints(indices: Seq<usize>) -> Seq<int> {
    indices.map_values(|i: usize| i as int)
}

/// Where the message groups after index `start` begin, in increasing order.
pub open spec fn group_positions(doc: Seq<u8>, start: int) -> Seq<int> {
    matches_from(doc, message_container(), start + 1)
}

/// Every hundredth of `groups`: the boundaries that the message groups give.
pub open spec fn chunk_boundaries(groups: Seq<int>) -> Seq<int> {
    Seq::new(groups.len() / (CHUNK_SIZE as nat), |j: int| groups[CHUNK_SIZE * (j + 1) - 1])
}

/// Where the scan for message groups comes to rest: at the last group after
/// `start`, or at `start` itself where no group follows it.
pub open spec fn last_cursor(doc: Seq<u8>, start: int) -> int {
    let groups = group_positions(doc, start);
    if groups.len() == 0 {
        start
    } else {
        groups.last()
    }
}

/// Where the closing boilerplate begins: its first occurrence after the last
/// message group.
pub open spec fn postamble_position(doc: Seq<u8>, start: int) -> Option<int> {
    first_match(doc, postamble(), last_cursor(doc, start) + 1)
}

/// The page boundaries of `doc`, scanned from `start`: one at every hundredth
/// message group, then one two bytes in front of the closing boilerplate.
pub open spec fn split_offsets(doc: Seq<u8>, start: int) -> Seq<int>
    recommends
        postamble_position(doc, start) is Some,
{
    chunk_boundaries(group_positions(doc, start)).push(postamble_position(doc, start).unwrap() - 2)
}

/// How many pages a transcript with `k` message groups after `start` gets:
/// `k / 100` rounded up where `k` is no multiple of 100, one more than
/// `k / 100` where it is one, and so one page where there is no group at all.
pub proof fn lemma_page_count(doc: Seq<u8>, start: int)
    ensures
        ({
            let k = group_positions(doc, start).len();
            let pages = split_offsets(doc, start).len();
            &&& pages == k / 100 + 1
            &&& k % 100 != 0 ==> pages == (k + 99) / 100
            &&& k == 0 ==> pages == 1
        }),
{
}

/// The boundaries of a transcript are strictly increasing and lie inside it.
/// Every boundary but the last is the beginning of a message group after
/// `start`; the last one lies two bytes in front of the closing boilerplate,
/// and behind the beginning of the last message group where there is one.
pub proof fn lemma_offsets_ordered(doc: Seq<u8>, start: int)
    requires
        0 <= start,
        postamble_position(doc, start) is Some,
    ensures
        ({
            let groups = group_positions(doc, start);
            let offsets = split_offsets(doc, start);
            &&& offsets.len() >= 1
            &&& offsets.last() == postamble_position(doc, start).unwrap() - 2
            &&& forall|i: int, j: int|
                0 <= i < j < offsets.len() ==> #[trigger] offsets[i] < #[trigger] offsets[j]
            &&& forall|i: int| 0 <= i < offsets.len() ==> #[trigger] offsets[i] < doc.len()
            &&& forall|i: int|
                0 <= i < offsets.len() - 1 ==> start < #[trigger] offsets[i] && matches_at(
                    doc,
                    message_container(),
                    offsets[i],
                )
            &&& groups.len() > 0 ==> groups.last() < offsets.last()
        }),
{
    let groups = group_positions(doc, start);
    let offsets = split_offsets(doc, start);
    let inner = chunk_boundaries(groups);
    let closing = postamble_position(doc, start).unwrap();
    lemma_marker_shapes();
    lemma_matches_from(doc, message_container(), start + 1);
    lemma_first_match(doc, postamble(), last_cursor(doc, start) + 1);
    assert forall|i: int| 0 <= i < inner.len() implies offsets[i] == groups[CHUNK_SIZE * (i + 1)
        - 1] && groups.contains(offsets[i]) by {}
    if groups.len() > 0 {
        assert(groups.contains(groups.last()));
        lemma_markers_apart(doc, message_container(), groups.last(), postamble(), closing);
    }
    assert forall|i: int, j: int| 0 <= i < j < offsets.len() implies #[trigger] offsets[i]
        < #[trigger] offsets[j] by {
        if j < inner.len() {
            assert(offsets[j] == groups[CHUNK_SIZE * (j + 1) - 1]);
        } else {
            assert(offsets[i] <= groups.last());
        }
    }
}

proof fn lemma_chunk_boundaries_push(groups: Seq<int>, next: int)
    ensures
        chunk_boundaries(groups.push(next)) == if (groups.len() + 1) % (CHUNK_SIZE as nat) == 0 {
            chunk_boundaries(groups).push(next)
        } else {
            chunk_boundaries(groups)
        },
{
    let longer = groups.push(next);
    if (groups.len() + 1) % (CHUNK_SIZE as nat) == 0 {
        assert(chunk_boundaries(longer) =~= chunk_boundaries(groups).push(next));
    } else {
        assert(chunk_boundaries(longer) =~= chunk_boundaries(groups));
    }
}

/// Computes the page boundaries of `content`, scanning from `current_offset`.
///
/// The scan looks for the next message group from one byte after the cursor,
/// so a group that begins exactly at `current_offset` is passed over. It
/// counts the groups and records every hundredth. Then it looks for the
/// closing boilerplate after the last group and records the index two bytes
/// in front of it, whether or not a boundary was recorded there already.
pub fn extract_offsets(content: &str, current_offset: usize) -> (r: Result<Vec<usize>, SplitError>)
    ensures
        match r {
            Ok(offsets) => {
                &&& postamble_position(content.spec_bytes(), current_offset as int) matches Some(p)
                    && p >= 2
                &&& as_ints(offsets@) == split_offsets(content.spec_bytes(), current_offset as int)
            },
            Err(SplitError::MissingPostamble) => postamble_position(
                content.spec_bytes(),
                current_offset as int,
            ) is None,
            Err(SplitError::PostambleTooEarly) => postamble_position(
                content.spec_bytes(),
                current_offset as int,
            ) matches Some(p) && p < 2,
            Err(_) => false,
        },
{
    let doc: &[u8] = content.as_bytes();
    let n: usize = doc.len();
    let group: &[u8] = MESSAGE_CONTAINER.as_bytes();
    let closing: &[u8] = POSTAMBLE.as_bytes();
    proof {
        lemma_marker_shapes();
    }
    if current_offset >= n {
        return Err(SplitError::MissingPostamble);
    }
    let mut cursor: usize = current_offset;
    let mut count: usize = 0;
    let mut offsets: Vec<usize> = Vec::new();
    let ghost mut seen: Seq<int> = Seq::empty();
    assert(as_ints(offsets@) =~= chunk_boundaries(seen));
    loop
        invariant
            doc@ == content.spec_bytes(),
            n == doc@.len(),
            group@ == message_container(),
            group@.len() == 36,
            current_offset <= cursor < n,
            count == seen.len(),
            count + current_offset <= cursor,
            cursor == if seen.len() == 0 {
                current_offset as int
            } else {
                seen.last()
            },
            group_positions(doc@, current_offset as int) == seen + matches_from(
                doc@,
                group@,
                cursor + 1,
            ),
            as_ints(offsets@) == chunk_boundaries(seen),
        ensures
            group_positions(doc@, current_offset as int) == seen,
            cursor == last_cursor(doc@, current_offset as int),
            cursor < n,
            as_ints(offsets@) == chunk_boundaries(seen),
        decreases n - cursor,
    {
        proof {
            lemma_first_match(doc@, group@, cursor + 1);
            lemma_matches_from_unfold(doc@, group@, cursor + 1);
        }
        match find_from(doc, group, cursor + 1) {
            Some(found) => {
                proof {
                    lemma_chunk_boundaries_push(seen, found as int);
                    assert(seen + (seq![found as int] + matches_from(doc@, group@, found + 1))
                        =~= seen.push(found as int) + matches_from(doc@, group@, found + 1));
                    assert(as_ints(offsets@.push(found)) =~= as_ints(offsets@).push(found as int));
                    seen = seen.push(found as int);
                }
                count = count + 1;
                cursor = found;
                if count % CHUNK_SIZE == 0 {
                    offsets.push(cursor);
                }
            },
            None => {
                assert(seen + Seq::<int>::empty() =~= seen);
                break ;
            },
        }
    }
    proof {
        lemma_first_match(doc@, closing@, cursor + 1);
    }
    match find_from(doc, closing, cursor + 1) {
        Some(found) => {
            if found < 2 {
                return Err(SplitError::PostambleTooEarly);
            }
            proof {
                assert(as_ints(offsets@.push((found - 2) as usize)) =~= as_ints(offsets@).push(
                    found - 2,
                ));
            }
            offsets.push(found - 2);
            Ok(offsets)
        },
        None => Err(SplitError::MissingPostamble),
    }
}

} // verus!
