//! What a page is made of.

use vstd::prelude::*;
use vstd::slice::slice_subrange;
use vstd::string::*;
use crate::markers::CLOSING_TAGS;
use crate::navigation::{
    lemma_navigation_links, navigation, navigation_links, next_label, previous_label,
};
use crate::offsets::as_ints;
use crate::search::occurs;
use crate::text::{append_bytes, append_decimal, decimal};

verus! {

/// What every page begins with: the transcript up to `content_start`.
pub open spec fn preamble(doc: Seq<u8>, content_start: int) -> Seq<u8> {
    doc.subrange(0, content_start)
}

/// What every page ends with.
pub open spec fn closing_tags() -> Seq<u8> {
    CLOSING_TAGS.spec_bytes()
}

/// Where the messages of page `index` begin: at `content_start` for page 0,
/// at the boundary of the page before for every other.
pub open spec fn page_start(offsets: Seq<int>, content_start: int, index: int) -> int {
    if index == 0 {
        content_start
    } else {
        offsets[index - 1]
    }
}

/// The messages of page `index`: the transcript from where the page begins
/// up to its boundary, unchanged.
pub open spec fn page_content(
    doc: Seq<u8>,
    offsets: Seq<int>,
    content_start: int,
    index: int,
) -> Seq<u8> {
    doc.subrange(page_start(offsets, content_start, index), offsets[index])
}

/// The navigation block of page `index` among as many pages as there are
/// boundaries.
pub open spec fn page_navigation(offsets: Seq<int>, index: int) -> Seq<u8> {
    navigation(index as nat, index == offsets.len() - 1)
}

/// Page `index`: preamble, navigation, messages, navigation, closing tags.
pub open spec fn page(doc: Seq<u8>, offsets: Seq<int>, content_start: int, index: int) -> Seq<u8> {
    preamble(doc, content_start) + page_navigation(offsets, index) + page_content(
        doc,
        offsets,
        content_start,
        index,
    ) + page_navigation(offsets, index) + closing_tags()
}

/// The boundaries can be cut out of `doc`: there is one at least, none lies
/// in front of `content_start` or of the boundary before it, and none
/// behind the end of `doc`.
pub open spec fn offsets_fit(doc: Seq<u8>, offsets: Seq<int>, content_start: int) -> bool {
    &&& 0 <= content_start
    &&& offsets.len() >= 1
    &&& content_start <= offsets[0]
    &&& forall|i: int, j: int|
        0 <= i <= j < offsets.len() ==> #[trigger] offsets[i] <= #[trigger] offsets[j]
    &&& offsets.last() <= doc.len()
}

/// The messages of the first `count` pages, one after the other.
pub open spec fn contents_through(
    doc: Seq<u8>,
    offsets: Seq<int>,
    content_start: int,
    count: nat,
) -> Seq<u8>
    decreases count,
{
    if count == 0 {
        Seq::empty()
    } else {
        contents_through(doc, offsets, content_start, (count - 1) as nat) + page_content(
            doc,
            offsets,
            content_start,
            count - 1,
        )
    }
}

/// The messages of the first `count` pages, put together in order, are the
/// transcript from `content_start` to the boundary of the last of them:
/// nothing is left out, repeated or changed.
pub proof fn lemma_contents_cover(
    doc: Seq<u8>,
    offsets: Seq<int>,
    content_start: int,
    count: nat,
)
    requires
        offsets_fit(doc, offsets, content_start),
        1 <= count <= offsets.len(),
    ensures
        contents_through(doc, offsets, content_start, count) == doc.subrange(
            content_start,
            offsets[count - 1],
        ),
    decreases count,
{
    let upto = contents_through(doc, offsets, content_start, (count - 1) as nat);
    let here = page_content(doc, offsets, content_start, count - 1);
    assert(offsets[count - 1] <= offsets[offsets.len() - 1]);
    if count == 1 {
        assert(upto + here =~= doc.subrange(content_start, offsets[0]));
    } else {
        lemma_contents_cover(doc, offsets, content_start, (count - 1) as nat);
        assert(offsets[0] <= offsets[count - 2] <= offsets[count - 1]);
        assert(upto + here =~= doc.subrange(content_start, offsets[count - 1]));
    }
}

/// Every page begins with the same bytes as the transcript: its first
/// `content_start` bytes are those of the transcript.
pub proof fn lemma_page_preamble(doc: Seq<u8>, offsets: Seq<int>, content_start: int, index: int)
    requires
        0 <= content_start <= doc.len(),
    ensures
        page(doc, offsets, content_start, index).len() >= content_start,
        page(doc, offsets, content_start, index).subrange(0, content_start) == doc.subrange(
            0,
            content_start,
        ),
{
    assert(page(doc, offsets, content_start, index).subrange(0, content_start) =~= doc.subrange(
        0,
        content_start,
    ));
}

/// Page 0 has no link to a previous page, the last page none to a next
/// one, and every page between them has both.
pub proof fn lemma_page_links(offsets: Seq<int>, index: int)
    requires
        0 <= index < offsets.len(),
    ensures
        occurs(page_navigation(offsets, index), previous_label()) <==> index != 0,
        occurs(page_navigation(offsets, index), next_label()) <==> index != offsets.len() - 1,
{
    lemma_navigation_links(index as nat, index == offsets.len() - 1);
}

/// The name of the file that holds page `index`: the index in decimal,
/// then `.html`.
pub open spec fn file_name(index: nat) -> Seq<u8> {
    decimal(index) + ".html".spec_bytes()
}

/// Gives the name of the file that holds page `index`.
pub fn page_file_name(index: usize) -> (name: Vec<u8>)
    ensures
        name@ == file_name(index as nat),
{
    let mut name: Vec<u8> = Vec::new();
    append_decimal(&mut name, index as u128);
    append_bytes(&mut name, ".html".as_bytes());
    assert(name@ =~= file_name(index as nat));
    name
}

/// Assembles page `index` of `content` from the boundaries `offsets`.
pub fn assemble_page(content: &str, offsets: &Vec<usize>, content_start: usize, index: usize) -> (out:
    Vec<u8>)
    requires
        offsets_fit(content.spec_bytes(), as_ints(offsets@), content_start as int),
        index < offsets@.len(),
    ensures
        out@ == page(content.spec_bytes(), as_ints(offsets@), content_start as int, index as int),
{
    let doc: &[u8] = content.as_bytes();
    let count: usize = offsets.len();
    let ghost bounds = as_ints(offsets@);
    let from: usize = if index == 0 {
        content_start
    } else {
        offsets[index - 1]
    };
    let to: usize = offsets[index];
    proof {
        assert(bounds[index as int] == to);
        assert(bounds[0] <= bounds[index as int] <= bounds[count - 1]);
        if index > 0 {
            assert(bounds[index - 1] == from);
            assert(bounds[0] <= bounds[index - 1] <= bounds[index as int]);
        }
    }
    let links: Vec<u8> = navigation_links(index, count == index + 1);
    let mut out: Vec<u8> = Vec::new();
    append_bytes(&mut out, slice_subrange(doc, 0, content_start));
    append_bytes(&mut out, links.as_slice());
    append_bytes(&mut out, slice_subrange(doc, from, to));
    append_bytes(&mut out, links.as_slice());
    append_bytes(&mut out, CLOSING_TAGS.as_bytes());
    assert(out@ =~= page(
        content.spec_bytes(),
        as_ints(offsets@),
        content_start as int,
        index as int,
    ));
    out
}

} // verus!
