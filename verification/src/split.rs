//! Splitting a whole transcript.

use vstd::prelude::*;
use vstd::string::*;
use crate::error::SplitError;
use crate::markers::{
    chat_log, lemma_marker_shapes, lemma_markers_apart, message_container, postamble, CHAT_LOG,
    MESSAGE_CONTAINER,
};
use crate::offsets::{
    as_ints, extract_offsets, group_positions, last_cursor, lemma_offsets_ordered,
    postamble_position, split_offsets,
};
use crate::pages::{assemble_page, contents_through, lemma_contents_cover, offsets_fit, page};
use crate::search::{
    find_from, first_match, lemma_first_match, lemma_matches_from, lemma_matches_from_skip,
    matches_at, matches_from,
};

verus! {

/// Where the pages of one transcript begin and end.
pub struct SplitPlan {
    /// The index behind the marker that opens the log: the preamble ends
    /// and the messages of page 0 begin here.
    pub content_start: usize,
    /// The boundary of each page, in order.
    pub offsets: Vec<usize>,
}

/// Where the log opens: the first occurrence of its marker.
pub open spec fn chat_log_position(doc: Seq<u8>) -> Option<int> {
    first_match(doc, chat_log(), 0)
}

/// Where the messages begin: behind the marker that opens the log.
pub open spec fn content_start_of(doc: Seq<u8>) -> Option<int> {
    match chat_log_position(doc) {
        Some(opening) => Some(opening + chat_log().len()),
        None => None,
    }
}

/// What splitting `doc` comes to: where the messages begin and the
/// boundaries of the pages, or the marker that is missing.
///
/// The markers have to stand in order: a message group at or behind the
/// end of the marker that opens the log, the closing boilerplate behind the
/// last message group. The boundaries are scanned from the end of the
/// opening marker, so a message group that begins exactly there belongs to
/// page 0 without being counted.
pub open spec fn split_outcome(doc: Seq<u8>) -> Result<(int, Seq<int>), SplitError> {
    match content_start_of(doc) {
        None => Err(SplitError::MissingChatLog),
        Some(content_start) => if first_match(doc, message_container(), content_start) is None {
            Err(SplitError::MissingMessageGroup)
        } else if postamble_position(doc, content_start) is None {
            Err(SplitError::MissingPostamble)
        } else {
            Ok((content_start, split_offsets(doc, content_start)))
        },
    }
}

/// The boundaries of a transcript that can be split can be cut out of it,
/// they are strictly increasing, and the messages of its pages, put
/// together in order, are the transcript from the end of the marker that
/// opens the log to two bytes in front of the closing boilerplate.
pub proof fn lemma_split_covers(doc: Seq<u8>)
    requires
        split_outcome(doc) is Ok,
    ensures
        ({
            let (content_start, offsets) = split_outcome(doc).unwrap();
            let closing = postamble_position(doc, content_start).unwrap();
            &&& offsets_fit(doc, offsets, content_start)
            &&& forall|i: int, j: int|
                0 <= i < j < offsets.len() ==> #[trigger] offsets[i] < #[trigger] offsets[j]
            &&& content_start <= closing - 2 == offsets.last()
            &&& contents_through(doc, offsets, content_start, offsets.len()) == doc.subrange(
                content_start,
                closing - 2,
            )
        }),
{
    let (content_start, offsets) = split_outcome(doc).unwrap();
    let closing = postamble_position(doc, content_start).unwrap();
    let groups = group_positions(doc, content_start);
    lemma_marker_shapes();
    lemma_first_match(doc, chat_log(), 0);
    lemma_first_match(doc, message_container(), content_start);
    lemma_first_match(doc, postamble(), last_cursor(doc, content_start) + 1);
    lemma_matches_from(doc, message_container(), content_start + 1);
    lemma_offsets_ordered(doc, content_start);
    if groups.len() == 0 {
        let first = first_match(doc, message_container(), content_start).unwrap();
        if first > content_start {
            assert(groups.contains(first));
        }
        lemma_markers_apart(doc, message_container(), content_start, postamble(), closing);
    } else {
        assert(groups.contains(groups.last()));
        if offsets.len() > 1 {
            assert(groups.contains(offsets[0]));
        }
    }
    assert(offsets[0] <= offsets[offsets.len() - 1]);
    lemma_contents_cover(doc, offsets, content_start, offsets.len());
}

/// A transcript that can be split, with no message group in front of the
/// first byte behind the marker that opens the log and `k` message groups
/// in all, gets `k / 100` pages rounded up where `k` is no multiple of
/// 100, and one more than `k / 100` where it is one.
pub proof fn lemma_split_page_count(doc: Seq<u8>)
    requires
        split_outcome(doc) is Ok,
        forall|q: int|
            0 <= q <= content_start_of(doc).unwrap() ==> !matches_at(doc, message_container(), q),
    ensures
        ({
            let k = matches_from(doc, message_container(), 0).len();
            let pages = split_outcome(doc).unwrap().1.len();
            &&& k >= 1
            &&& pages == k / 100 + 1
            &&& k % 100 != 0 ==> pages == (k + 99) / 100
        }),
{
    let content_start = content_start_of(doc).unwrap();
    lemma_first_match(doc, message_container(), content_start);
    lemma_matches_from(doc, message_container(), content_start + 1);
    lemma_matches_from_skip(doc, message_container(), 0, content_start + 1);
    let first = first_match(doc, message_container(), content_start).unwrap();
    assert(group_positions(doc, content_start).contains(first));
}

impl SplitPlan {
    /// The boundaries as mathematical integers.
    pub open spec fn boundaries(&self) -> Seq<int> {
        as_ints(self.offsets@)
    }

    /// The plan can be carried out on `doc`.
    pub open spec fn fits(&self, doc: Seq<u8>) -> bool {
        offsets_fit(doc, self.boundaries(), self.content_start as int)
    }

    /// Tests whether the plan can be carried out on `content`.
    pub fn fits_content(&self, content: &str) -> (r: bool)
        ensures
            r == self.fits(content.spec_bytes()),
    {
        let length: usize = content.as_bytes().len();
        let count: usize = self.offsets.len();
        if count == 0 || self.offsets[0] < self.content_start {
            return false;
        }
        let ghost bounds = self.boundaries();
        let mut index: usize = 1;
        while index < count
            invariant
                count == self.offsets@.len(),
                bounds == self.boundaries(),
                1 <= index <= count,
                forall|i: int, j: int|
                    0 <= i <= j < index ==> #[trigger] bounds[i] <= #[trigger] bounds[j],
            decreases count - index,
        {
            if self.offsets[index] < self.offsets[index - 1] {
                assert(bounds[index - 1] > bounds[index as int]);
                return false;
            }
            assert forall|i: int, j: int| 0 <= i <= j < index + 1 implies #[trigger] bounds[i]
                <= #[trigger] bounds[j] by {
                if j == index && i < index {
                    assert(bounds[i] <= bounds[index - 1]);
                }
            }
            index = index + 1;
        }
        self.offsets[count - 1] <= length
    }

    /// How many pages there are: one for each boundary.
    pub fn page_count(&self) -> (count: usize)
        ensures
            count == self.boundaries().len(),
    {
        self.offsets.len()
    }

    /// Assembles page `index` of `content`.
    pub fn page(&self, content: &str, index: usize) -> (out: Vec<u8>)
        requires
            self.fits(content.spec_bytes()),
            index < self.boundaries().len(),
        ensures
            out@ == page(
                content.spec_bytes(),
                self.boundaries(),
                self.content_start as int,
                index as int,
            ),
    {
        assemble_page(content, &self.offsets, self.content_start, index)
    }
}

/// Plans the pages of `content`.
///
/// Fails where a marker is missing: the one that opens the log, a message
/// group behind it, or the closing boilerplate behind the last message
/// group. The opening of the log is looked for first, the message group
/// next.
pub fn split_file(content: &str) -> (r: Result<SplitPlan, SplitError>)
    ensures
        match r {
            Ok(plan) => {
                &&& split_outcome(content.spec_bytes()) == Ok::<(int, Seq<int>), SplitError>(
                    (plan.content_start as int, plan.boundaries()),
                )
                &&& plan.fits(content.spec_bytes())
            },
            Err(e) => split_outcome(content.spec_bytes()) == Err::<(int, Seq<int>), SplitError>(e),
        },
{
    let doc: &[u8] = content.as_bytes();
    proof {
        lemma_marker_shapes();
        lemma_first_match(doc@, chat_log(), 0);
        assert(doc@.len() == doc.len());
    }
    let opening: usize = match find_from(doc, CHAT_LOG.as_bytes(), 0) {
        Some(found) => found,
        None => {
            return Err(SplitError::MissingChatLog);
        },
    };
    let content_start: usize = opening + CHAT_LOG.as_bytes().len();
    if find_from(doc, MESSAGE_CONTAINER.as_bytes(), content_start).is_none() {
        return Err(SplitError::MissingMessageGroup);
    }
    proof {
        lemma_matches_from(doc@, message_container(), content_start + 1);
        let groups = group_positions(doc@, content_start as int);
        if groups.len() > 0 {
            assert(groups.contains(groups.last()));
        }
        lemma_first_match(doc@, postamble(), last_cursor(doc@, content_start as int) + 1);
    }
    match extract_offsets(content, content_start) {
        Ok(offsets) => {
            proof {
                lemma_split_covers(doc@);
            }
            Ok(SplitPlan { content_start, offsets })
        },
        Err(e) => Err(e),
    }
}

} // verus!
