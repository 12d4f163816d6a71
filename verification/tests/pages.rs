use chatlog_splitter::error::SplitError;
use chatlog_splitter::markers::{CHAT_LOG, CLOSING_TAGS, MESSAGE_CONTAINER, POSTAMBLE};
use chatlog_splitter::navigation::navigation_links;
use chatlog_splitter::pages::{assemble_page, page_file_name};
use chatlog_splitter::split::{split_file, SplitPlan};

fn synthetic(groups: usize) -> String {
    let mut doc = String::from("<!DOCTYPE html><html><head><title>log</title></head><body>");
    doc.push_str(CHAT_LOG);
    doc.push('\n');
    for number in 1..=groups {
        doc.push_str(MESSAGE_CONTAINER);
        doc.push_str(&format!("<p>message {}</p></div>\n", number));
    }
    doc.push_str("</div>");
    doc.push_str(POSTAMBLE);
    doc.push_str("</div></body></html>");
    doc
}

fn starts_of_groups(doc: &str) -> Vec<usize> {
    doc.match_indices(MESSAGE_CONTAINER).map(|(at, _)| at).collect()
}

fn contains_text(text: &[u8], part: &[u8]) -> bool {
    text.windows(part.len()).any(|window| window == part)
}

fn content_of<'a>(page: &'a [u8], preamble: usize, index: usize, count: usize) -> &'a [u8] {
    let links = navigation_links(index, index + 1 == count).len();
    &page[preamble + links..page.len() - links - CLOSING_TAGS.len()]
}

#[test]
fn two_hundred_and_fifty_groups_make_three_pages() {
    let doc = synthetic(250);
    let starts = starts_of_groups(&doc);
    let opening = doc.find(CHAT_LOG).unwrap();
    let closing = doc.find(POSTAMBLE).unwrap();
    let plan = split_file(&doc).unwrap();
    assert_eq!(plan.page_count(), 3);
    assert_eq!(plan.content_start, opening + CHAT_LOG.len());
    assert_eq!(plan.offsets, vec![starts[99], starts[199], closing - 2]);

    let first = plan.page(&doc, 0);
    let second = plan.page(&doc, 1);
    let third = plan.page(&doc, 2);
    let preamble = plan.content_start;
    assert_eq!(content_of(&first, preamble, 0, 3), &doc.as_bytes()[preamble..starts[99]]);
    assert_eq!(content_of(&second, preamble, 1, 3), &doc.as_bytes()[starts[99]..starts[199]]);
    assert_eq!(content_of(&third, preamble, 2, 3), &doc.as_bytes()[starts[199]..closing - 2]);

    // The boundary at the hundredth group lies in front of that group.
    assert!(contains_text(&first, b"<p>message 1</p>"));
    assert!(contains_text(&first, b"<p>message 99</p>"));
    assert!(!contains_text(&first, b"<p>message 100</p>"));
    assert!(contains_text(&second, b"<p>message 100</p>"));
    assert!(contains_text(&second, b"<p>message 199</p>"));
    assert!(!contains_text(&second, b"<p>message 200</p>"));
    assert!(contains_text(&third, b"<p>message 200</p>"));
    assert!(contains_text(&third, b"<p>message 250</p>"));
    assert!(!contains_text(&third, POSTAMBLE.as_bytes()));
}

#[test]
fn the_contents_of_the_pages_make_up_the_log() {
    for groups in [1usize, 99, 100, 101, 250, 300] {
        let doc = synthetic(groups);
        let closing = doc.find(POSTAMBLE).unwrap();
        let plan = split_file(&doc).unwrap();
        let count = plan.page_count();
        let mut together: Vec<u8> = Vec::new();
        for index in 0..count {
            let page = plan.page(&doc, index);
            together.extend_from_slice(content_of(&page, plan.content_start, index, count));
        }
        assert_eq!(together, doc.as_bytes()[plan.content_start..closing - 2].to_vec());
    }
}

#[test]
fn every_page_begins_with_the_preamble() {
    let doc = synthetic(250);
    let plan = split_file(&doc).unwrap();
    for index in 0..plan.page_count() {
        let page = plan.page(&doc, index);
        assert_eq!(&page[..plan.content_start], &doc.as_bytes()[..plan.content_start]);
        assert!(page.ends_with(CLOSING_TAGS.as_bytes()));
    }
}

#[test]
fn the_pages_link_to_their_neighbours() {
    let doc = synthetic(350);
    let plan = split_file(&doc).unwrap();
    let count = plan.page_count();
    assert_eq!(count, 4);
    for index in 0..count {
        let page = plan.page(&doc, index);
        let links = navigation_links(index, index + 1 == count);
        assert_eq!(contains_text(&links, b">Previous</a>"), index != 0);
        assert_eq!(contains_text(&links, b">Next</a>"), index + 1 != count);
        let top = plan.content_start;
        assert_eq!(&page[top..top + links.len()], &links[..]);
        let bottom = page.len() - CLOSING_TAGS.len() - links.len();
        assert_eq!(&page[bottom..bottom + links.len()], &links[..]);
    }
}

#[test]
fn a_small_page_byte_for_byte() {
    let doc = "HEAD<div class=\"chatlog\"><div class=\"chatlog__message-group\">hi</div>\n\n<div class=\"postamble\">bye";
    let plan = split_file(doc).unwrap();
    assert_eq!(plan.content_start, 25);
    assert_eq!(plan.offsets, vec![69]);
    assert_eq!(
        plan.page(doc, 0),
        b"HEAD<div class=\"chatlog\"><span></span><div class=\"chatlog__message-group\">hi</div><span></span></body></html>"
            .to_vec()
    );
}

#[test]
fn pages_from_boundaries_given_by_hand() {
    let doc = "0123456789";
    let offsets: Vec<usize> = vec![4, 4, 9];
    assert_eq!(
        assemble_page(doc, &offsets, 2, 0),
        b"01<span> <a href=\"1.html\">Next</a></span>23<span> <a href=\"1.html\">Next</a></span></body></html>"
            .to_vec()
    );
    assert_eq!(
        assemble_page(doc, &offsets, 2, 1),
        b"01<span><a href=\"0.html\">Previous</a> <a href=\"2.html\">Next</a></span><span><a href=\"0.html\">Previous</a> <a href=\"2.html\">Next</a></span></body></html>"
            .to_vec()
    );
    assert_eq!(
        assemble_page(doc, &offsets, 2, 2),
        b"01<span><a href=\"1.html\">Previous</a></span>45678<span><a href=\"1.html\">Previous</a></span></body></html>"
            .to_vec()
    );
    let plan = SplitPlan { content_start: 2, offsets };
    assert_eq!(plan.page_count(), 3);
    assert_eq!(plan.page(doc, 2), assemble_page(doc, &plan.offsets, 2, 2));
}

#[test]
fn a_full_chunk_is_followed_by_a_page_with_the_last_group() {
    let doc = synthetic(100);
    let starts = starts_of_groups(&doc);
    let closing = doc.find(POSTAMBLE).unwrap();
    let plan = split_file(&doc).unwrap();
    assert_eq!(plan.offsets, vec![starts[99], closing - 2]);
    let last = plan.page(&doc, 1);
    assert!(contains_text(&last, b"<p>message 100</p>"));
    assert!(!contains_text(&last, b"<p>message 99</p>"));
}

#[test]
fn a_group_right_behind_the_opening_is_not_counted() {
    let mut doc = String::from(CHAT_LOG);
    for _ in 0..100 {
        doc.push_str(MESSAGE_CONTAINER);
    }
    doc.push_str(POSTAMBLE);
    let plan = split_file(&doc).unwrap();
    assert_eq!(plan.content_start, 21);
    assert_eq!(plan.offsets, vec![21 + 100 * 36 - 2]);

    doc.insert(21, ' ');
    let plan = split_file(&doc).unwrap();
    assert_eq!(plan.content_start, 21);
    assert_eq!(plan.offsets, vec![22 + 99 * 36, 22 + 100 * 36 - 2]);
}

#[test]
fn a_single_group_right_behind_the_opening_makes_one_page() {
    let mut doc = String::from(CHAT_LOG);
    doc.push_str(MESSAGE_CONTAINER);
    doc.push_str(POSTAMBLE);
    let plan = split_file(&doc).unwrap();
    assert_eq!(plan.content_start, 21);
    assert_eq!(plan.offsets, vec![21 + 36 - 2]);
    let mut expected = doc.as_bytes()[..21].to_vec();
    expected.extend_from_slice(b"<span></span>");
    expected.extend_from_slice(&doc.as_bytes()[21..55]);
    expected.extend_from_slice(b"<span></span></body></html>");
    assert_eq!(plan.page(&doc, 0), expected);
}

#[test]
fn groups_packed_behind_the_opening_fall_into_full_hundreds() {
    let mut doc = String::from("<html><body>");
    doc.push_str(CHAT_LOG);
    for number in 1..=250 {
        doc.push_str(MESSAGE_CONTAINER);
        doc.push_str(&format!("<p>message {}</p></div>", number));
    }
    doc.push_str("\n\n");
    doc.push_str(POSTAMBLE);
    doc.push_str("</div></body></html>");
    let starts = starts_of_groups(&doc);
    let closing = doc.find(POSTAMBLE).unwrap();
    let plan = split_file(&doc).unwrap();
    assert_eq!(plan.page_count(), 3);
    assert_eq!(plan.content_start, starts[0]);
    assert_eq!(plan.offsets, vec![starts[100], starts[200], closing - 2]);

    let first = plan.page(&doc, 0);
    let second = plan.page(&doc, 1);
    let third = plan.page(&doc, 2);
    assert!(contains_text(&first, b"<p>message 1</p>"));
    assert!(contains_text(&first, b"<p>message 100</p>"));
    assert!(!contains_text(&first, b"<p>message 101</p>"));
    assert!(!contains_text(&second, b"<p>message 100</p>"));
    assert!(contains_text(&second, b"<p>message 101</p>"));
    assert!(contains_text(&second, b"<p>message 200</p>"));
    assert!(!contains_text(&second, b"<p>message 201</p>"));
    assert!(!contains_text(&third, b"<p>message 200</p>"));
    assert!(contains_text(&third, b"<p>message 201</p>"));
    assert!(contains_text(&third, b"<p>message 250</p>"));
    assert_eq!(
        content_of(&third, plan.content_start, 2, 3),
        &doc.as_bytes()[starts[200]..closing - 2]
    );
}

#[test]
fn the_first_opening_of_the_log_counts() {
    let mut doc = String::from("a");
    doc.push_str(CHAT_LOG);
    doc.push_str(CHAT_LOG);
    doc.push_str(MESSAGE_CONTAINER);
    doc.push_str("..");
    doc.push_str(POSTAMBLE);
    let plan = split_file(&doc).unwrap();
    assert_eq!(plan.content_start, 22);
    assert_eq!(plan.offsets, vec![doc.len() - POSTAMBLE.len() - 2]);
}

#[test]
fn a_transcript_without_the_opening_is_refused() {
    let mut doc = String::from("<html>");
    doc.push_str(MESSAGE_CONTAINER);
    doc.push_str("hello</div>");
    doc.push_str(POSTAMBLE);
    assert_eq!(split_file(&doc).err(), Some(SplitError::MissingChatLog));
    assert_eq!(split_file("").err(), Some(SplitError::MissingChatLog));
}

#[test]
fn a_transcript_without_a_group_is_refused() {
    let mut doc = String::from("<html>");
    doc.push_str(CHAT_LOG);
    doc.push_str("nothing here</div>");
    doc.push_str(POSTAMBLE);
    assert_eq!(split_file(&doc).err(), Some(SplitError::MissingMessageGroup));
}

#[test]
fn a_group_in_front_of_the_opening_does_not_count() {
    let mut doc = String::from(MESSAGE_CONTAINER);
    doc.push_str(CHAT_LOG);
    doc.push_str(POSTAMBLE);
    assert_eq!(split_file(&doc).err(), Some(SplitError::MissingMessageGroup));
}

#[test]
fn a_transcript_without_the_postamble_is_refused() {
    let mut doc = String::from("<html>");
    doc.push_str(CHAT_LOG);
    doc.push_str(MESSAGE_CONTAINER);
    doc.push_str("hello</div></div></body></html>");
    assert_eq!(split_file(&doc).err(), Some(SplitError::MissingPostamble));
}

#[test]
fn a_postamble_in_front_of_the_groups_is_no_postamble() {
    let mut doc = String::from(CHAT_LOG);
    doc.push_str(POSTAMBLE);
    doc.push_str(MESSAGE_CONTAINER);
    doc.push_str("hello</div>");
    assert_eq!(split_file(&doc).err(), Some(SplitError::MissingPostamble));
}

#[test]
fn the_opening_is_looked_for_first() {
    assert_eq!(split_file("nothing at all").err(), Some(SplitError::MissingChatLog));
    let mut doc = String::from(CHAT_LOG);
    doc.push_str("no group, no postamble");
    assert_eq!(split_file(&doc).err(), Some(SplitError::MissingMessageGroup));
}

#[test]
fn file_names_are_the_index_and_the_extension() {
    assert_eq!(page_file_name(0), b"0.html".to_vec());
    assert_eq!(page_file_name(7), b"7.html".to_vec());
    assert_eq!(page_file_name(12), b"12.html".to_vec());
    assert_eq!(page_file_name(usize::MAX), format!("{}.html", usize::MAX).into_bytes());
}

#[test]
fn a_plan_fits_the_transcript_it_was_made_for() {
    let doc = synthetic(250);
    let plan = split_file(&doc).unwrap();
    assert!(plan.fits_content(&doc));
    assert!(!plan.fits_content(&doc[..doc.len() - 60]));
}

#[test]
fn a_plan_by_hand_fits_where_its_boundaries_can_be_cut() {
    let doc = "0123456789";
    assert!(SplitPlan { content_start: 2, offsets: vec![4, 4, 10] }.fits_content(doc));
    assert!(SplitPlan { content_start: 0, offsets: vec![0] }.fits_content(doc));
    assert!(!SplitPlan { content_start: 2, offsets: vec![] }.fits_content(doc));
    assert!(!SplitPlan { content_start: 5, offsets: vec![4, 6] }.fits_content(doc));
    assert!(!SplitPlan { content_start: 2, offsets: vec![4, 3, 9] }.fits_content(doc));
    assert!(!SplitPlan { content_start: 2, offsets: vec![4, 11] }.fits_content(doc));
}
