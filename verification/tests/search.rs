use chatlog_splitter::search::{find_from, matches_here};

#[test]
fn find_from_gives_the_first_match() {
    let doc = b"abcabcabc";
    assert_eq!(find_from(doc, b"abc", 0), Some(0));
    assert_eq!(find_from(doc, b"abc", 1), Some(3));
    assert_eq!(find_from(doc, b"abc", 3), Some(3));
    assert_eq!(find_from(doc, b"abc", 4), Some(6));
    assert_eq!(find_from(doc, b"abc", 7), None);
}

#[test]
fn find_from_sees_matches_that_overlap() {
    assert_eq!(find_from(b"aaaa", b"aa", 0), Some(0));
    assert_eq!(find_from(b"aaaa", b"aa", 1), Some(1));
    assert_eq!(find_from(b"aaaa", b"aa", 2), Some(2));
    assert_eq!(find_from(b"aaaa", b"aa", 3), None);
}

#[test]
fn find_from_at_the_very_end() {
    assert_eq!(find_from(b"xxab", b"ab", 0), Some(2));
    assert_eq!(find_from(b"xxab", b"ab", 2), Some(2));
    assert_eq!(find_from(b"xxab", b"ab", 3), None);
}

#[test]
fn find_from_behind_the_end_finds_nothing() {
    assert_eq!(find_from(b"ab", b"ab", 5), None);
    assert_eq!(find_from(b"ab", b"ab", usize::MAX), None);
    assert_eq!(find_from(b"", b"ab", 0), None);
}

#[test]
fn find_from_with_a_pattern_longer_than_the_text() {
    assert_eq!(find_from(b"ab", b"abc", 0), None);
}

#[test]
fn find_from_with_an_empty_pattern() {
    assert_eq!(find_from(b"ab", b"", 0), Some(0));
    assert_eq!(find_from(b"ab", b"", 2), Some(2));
    assert_eq!(find_from(b"ab", b"", 3), None);
}

#[test]
fn find_from_agrees_with_the_standard_search() {
    let doc = "one <b>two</b> three <b>four</b>";
    for from in 0..doc.len() {
        let expected = doc[from..].find("<b>").map(|at| at + from);
        assert_eq!(find_from(doc.as_bytes(), b"<b>", from), expected);
    }
}

#[test]
fn matches_here_compares_every_byte() {
    assert!(matches_here(b"hello", b"ell", 1));
    assert!(!matches_here(b"hello", b"elx", 1));
    assert!(!matches_here(b"hello", b"ell", 0));
    assert!(matches_here(b"hello", b"", 5));
}
