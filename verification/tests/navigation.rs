use chatlog_splitter::navigation::navigation_links;
use chatlog_splitter::text::{append_bytes, append_decimal};

fn decimal_of(n: u128) -> String {
    let mut out: Vec<u8> = Vec::new();
    append_decimal(&mut out, n);
    String::from_utf8(out).unwrap()
}

fn contains(text: &[u8], part: &[u8]) -> bool {
    text.windows(part.len()).any(|window| window == part)
}

#[test]
fn decimal_of_small_numbers() {
    assert_eq!(decimal_of(0), "0");
    assert_eq!(decimal_of(7), "7");
    assert_eq!(decimal_of(9), "9");
    assert_eq!(decimal_of(10), "10");
    assert_eq!(decimal_of(99), "99");
    assert_eq!(decimal_of(100), "100");
    assert_eq!(decimal_of(1234567890), "1234567890");
}

#[test]
fn decimal_of_the_largest_numbers() {
    assert_eq!(decimal_of(u64::MAX as u128), "18446744073709551615");
    assert_eq!(decimal_of(u128::MAX), "340282366920938463463374607431768211455");
}

#[test]
fn decimal_agrees_with_the_standard_formatting() {
    for n in 0..2000u128 {
        assert_eq!(decimal_of(n), format!("{}", n));
    }
}

#[test]
fn append_decimal_keeps_what_was_there() {
    let mut out: Vec<u8> = b"page ".to_vec();
    append_decimal(&mut out, 42);
    assert_eq!(out, b"page 42".to_vec());
}

#[test]
fn append_bytes_keeps_what_was_there() {
    let mut out: Vec<u8> = b"ab".to_vec();
    append_bytes(&mut out, b"cd");
    append_bytes(&mut out, b"");
    assert_eq!(out, b"abcd".to_vec());
}

#[test]
fn the_only_page_has_no_link() {
    assert_eq!(navigation_links(0, true), b"<span></span>".to_vec());
}

#[test]
fn the_first_page_links_to_the_next() {
    assert_eq!(navigation_links(0, false), b"<span> <a href=\"1.html\">Next</a></span>".to_vec());
}

#[test]
fn a_page_in_the_middle_links_both_ways() {
    assert_eq!(
        navigation_links(1, false),
        b"<span><a href=\"0.html\">Previous</a> <a href=\"2.html\">Next</a></span>".to_vec()
    );
    assert_eq!(
        navigation_links(10, false),
        b"<span><a href=\"9.html\">Previous</a> <a href=\"11.html\">Next</a></span>".to_vec()
    );
}

#[test]
fn the_last_page_links_to_the_previous() {
    assert_eq!(
        navigation_links(2, true),
        b"<span><a href=\"1.html\">Previous</a></span>".to_vec()
    );
}

#[test]
fn links_are_there_exactly_where_a_neighbour_is() {
    for index in 0..5usize {
        for last in [false, true] {
            let block = navigation_links(index, last);
            assert_eq!(contains(&block, b">Previous</a>"), index != 0);
            assert_eq!(contains(&block, b">Next</a>"), !last);
            assert!(block.starts_with(b"<span>"));
            assert!(block.ends_with(b"</span>"));
        }
    }
}

#[test]
fn the_largest_index_still_has_a_next_page() {
    assert_eq!(
        navigation_links(usize::MAX, false),
        format!(
            "<span><a href=\"{}.html\">Previous</a> <a href=\"{}.html\">Next</a></span>",
            usize::MAX - 1,
            usize::MAX as u128 + 1
        )
        .into_bytes()
    );
}
