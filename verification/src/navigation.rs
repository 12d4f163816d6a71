//! The navigation block that stands above and below the messages of a page.

use vstd::prelude::*;
use vstd::string::*;
use crate::search::{lemma_absent_without_byte, lemma_occurs_within, matches_at, occurs};
use crate::text::{append_bytes, append_decimal, decimal, free_of, lemma_decimal_free_of};

verus! {

/// The link from page `index` to the page in front of it.
pub open spec fn previous_link(index: nat) -> Seq<u8>
    recommends
        index > 0,
{
    "<a href=\"".spec_bytes() + decimal((index - 1) as nat) + ".html\">Previous</a>".spec_bytes()
}

/// The link from page `index` to the page after it, with the space that
/// parts it from what stands before.
pub open spec fn next_link(index: nat) -> Seq<u8> {
    " <a href=\"".spec_bytes() + decimal(index + 1) + ".html\">Next</a>".spec_bytes()
}

/// The navigation block of page `index`: a `span` that holds the link to the
/// previous page unless this is page 0, then the link to the next page
/// unless this is the last one.
pub open spec fn navigation(index: nat, last: bool) -> Seq<u8> {
    "<span>".spec_bytes() + (if index != 0 {
        previous_link(index)
    } else {
        Seq::empty()
    }) + (if !last {
        next_link(index)
    } else {
        Seq::empty()
    }) + "</span>".spec_bytes()
}

/// The text by which a link to the previous page is known.
pub open spec fn previous_label() -> Seq<u8> {
    ">Previous</a>".spec_bytes()
}

/// The text by which a link to the next page is known.
pub open spec fn next_label() -> Seq<u8> {
    ">Next</a>".spec_bytes()
}

proof fn lemma_link_pieces()
    ensures
        free_of("<span>".spec_bytes(), 80),
        free_of("<span>".spec_bytes(), 78),
        free_of("</span>".spec_bytes(), 80),
        free_of("</span>".spec_bytes(), 78),
        free_of("<a href=\"".spec_bytes(), 78),
        free_of(".html\">Previous</a>".spec_bytes(), 78),
        free_of(" <a href=\"".spec_bytes(), 80),
        free_of(".html\">Next</a>".spec_bytes(), 80),
        previous_label().len() == 13,
        previous_label()[1] == 80,
        next_label().len() == 9,
        next_label()[1] == 78,
        matches_at(".html\">Previous</a>".spec_bytes(), previous_label(), 6),
        matches_at(".html\">Next</a>".spec_bytes(), next_label(), 6),
{
    reveal_strlit("<span>");
    reveal_strlit("</span>");
    reveal_strlit("<a href=\"");
    reveal_strlit(" <a href=\"");
    reveal_strlit(".html\">Previous</a>");
    reveal_strlit(".html\">Next</a>");
    reveal_strlit(">Previous</a>");
    reveal_strlit(">Next</a>");
    assert(is_ascii("<span>"));
    assert(is_ascii("</span>"));
    assert(is_ascii("<a href=\""));
    assert(is_ascii(" <a href=\""));
    assert(is_ascii(".html\">Previous</a>"));
    assert(is_ascii(".html\">Next</a>"));
    assert(is_ascii(">Previous</a>"));
    assert(is_ascii(">Next</a>"));
    is_ascii_spec_bytes("<span>");
    is_ascii_spec_bytes("</span>");
    is_ascii_spec_bytes("<a href=\"");
    is_ascii_spec_bytes(" <a href=\"");
    is_ascii_spec_bytes(".html\">Previous</a>");
    is_ascii_spec_bytes(".html\">Next</a>");
    is_ascii_spec_bytes(">Previous</a>");
    is_ascii_spec_bytes(">Next</a>");
    assert(".html\">Previous</a>".spec_bytes().subrange(6, 19) =~= previous_label());
    assert(".html\">Next</a>".spec_bytes().subrange(6, 15) =~= next_label());
}

/// A navigation block links to the previous page exactly where its page is
/// not page 0, and to the next page exactly where its page is not the last.
pub proof fn lemma_navigation_links(index: nat, last: bool)
    ensures
        occurs(navigation(index, last), previous_label()) <==> index != 0,
        occurs(navigation(index, last), next_label()) <==> !last,
{
    lemma_link_pieces();
    let open = "<span>".spec_bytes();
    let close = "</span>".spec_bytes();
    let block = navigation(index, last);
    let previous = if index != 0 {
        previous_link(index)
    } else {
        Seq::empty()
    };
    let next = if !last {
        next_link(index)
    } else {
        Seq::empty()
    };
    assert(block == open + previous + next + close);
    lemma_decimal_free_of(index + 1, 80);
    lemma_decimal_free_of(index + 1, 78);
    lemma_decimal_free_of((index - 1) as nat, 80);
    lemma_decimal_free_of((index - 1) as nat, 78);
    if index != 0 {
        let tail = ".html\">Previous</a>".spec_bytes();
        let head = open + ("<a href=\"".spec_bytes() + decimal((index - 1) as nat));
        assert(occurs(tail, previous_label()));
        lemma_occurs_within(head, tail, next + close, previous_label());
        assert(block =~= head + tail + (next + close));
    } else {
        assert(free_of(block, 80));
        lemma_absent_without_byte(block, previous_label(), 1);
    }
    if !last {
        let tail = ".html\">Next</a>".spec_bytes();
        let head = open + previous + (" <a href=\"".spec_bytes() + decimal(index + 1));
        assert(occurs(tail, next_label()));
        lemma_occurs_within(head, tail, close, next_label());
        assert(block =~= head + tail + close);
    } else {
        assert(free_of(block, 78));
        lemma_absent_without_byte(block, next_label(), 1);
    }
}

/// Builds the navigation block of page `index`; `last` says whether it is the
/// last page.
pub fn navigation_links(index: usize, last: bool) -> (block: Vec<u8>)
    ensures
        block@ == navigation(index as nat, last),
{
    let mut block: Vec<u8> = Vec::new();
    append_bytes(&mut block, "<span>".as_bytes());
    if index != 0 {
        append_bytes(&mut block, "<a href=\"".as_bytes());
        append_decimal(&mut block, (index - 1) as u128);
        append_bytes(&mut block, ".html\">Previous</a>".as_bytes());
    }
    if !last {
        append_bytes(&mut block, " <a href=\"".as_bytes());
        append_decimal(&mut block, index as u128 + 1);
        append_bytes(&mut block, ".html\">Next</a>".as_bytes());
    }
    append_bytes(&mut block, "</span>".as_bytes());
    assert(block@ =~= navigation(index as nat, last));
    block
}

} // verus!
