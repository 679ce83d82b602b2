use simplegrep::term::{SearchTerm, TermError};
use simplegrep::word::{count_words, find_word, is_word, line_matches, word_starts_at};

fn term(text: &str) -> SearchTerm {
    SearchTerm::new(text.as_bytes()).unwrap()
}

#[test]
fn term_keeps_its_bytes() {
    let t = term("cat");
    assert_eq!(t.as_bytes(), b"cat");
    assert_eq!(t.len(), 3);
}

#[test]
fn empty_term_is_refused() {
    assert_eq!(SearchTerm::new(b"").unwrap_err(), TermError::Empty);
}

#[test]
fn term_with_line_terminator_is_refused() {
    assert_eq!(SearchTerm::new(b"a\nb").unwrap_err(), TermError::ContainsLineTerminator);
    assert_eq!(SearchTerm::new(b"\n").unwrap_err(), TermError::ContainsLineTerminator);
}

#[test]
fn term_may_hold_any_other_byte() {
    assert!(SearchTerm::new(b"a b").is_ok());
    assert!(SearchTerm::new(&[0xC3, 0xA9]).is_ok());
    assert!(SearchTerm::new(b"\r").is_ok());
}

#[test]
fn word_bytes_are_ascii_letters_digits_and_underscore() {
    for b in 0u8..=255 {
        let expected = b.is_ascii_alphanumeric() || b == b'_';
        assert_eq!(is_word(b), expected, "byte {}", b);
    }
}

#[test]
fn term_in_the_middle_of_a_line() {
    assert!(line_matches(&term("cat"), b"the cat sat"));
}

#[test]
fn term_at_the_start_of_a_line() {
    assert!(line_matches(&term("cat"), b"cat sat"));
    assert_eq!(find_word(&term("cat"), b"cat sat", 0), Some(0));
}

#[test]
fn term_at_the_end_of_a_line() {
    assert!(line_matches(&term("cat"), b"the cat"));
    assert_eq!(find_word(&term("cat"), b"the cat", 0), Some(4));
}

#[test]
fn term_as_the_entire_line() {
    assert!(line_matches(&term("dog"), b"dog"));
}

#[test]
fn term_inside_a_longer_token_does_not_match() {
    assert!(!line_matches(&term("cat"), b"category"));
    assert!(!line_matches(&term("cat"), b"concat"));
    assert!(!line_matches(&term("cat"), b"concatenate"));
    assert!(!line_matches(&term("cat"), b"cat_"));
    assert!(!line_matches(&term("cat"), b"_cat"));
    assert!(!line_matches(&term("cat"), b"cat9"));
    assert!(!line_matches(&term("cat"), b"9cat"));
}

#[test]
fn matching_is_case_sensitive() {
    assert!(!line_matches(&term("cat"), b"the Cat sat"));
    assert!(!line_matches(&term("cat"), b"CAT"));
    assert!(line_matches(&term("Cat"), b"the Cat sat"));
}

#[test]
fn punctuation_bounds_a_word() {
    assert!(line_matches(&term("cat"), b"(cat)"));
    assert!(line_matches(&term("cat"), b"a,cat."));
    assert!(line_matches(&term("cat"), b"\tcat\r"));
}

#[test]
fn bytes_outside_ascii_bound_a_word() {
    // "café": the bytes of the last letter are no word bytes.
    assert!(line_matches(&term("caf"), "café".as_bytes()));
    assert!(line_matches(&term("né"), "il est né ici".as_bytes()));
}

#[test]
fn empty_line_and_short_line_do_not_match() {
    assert!(!line_matches(&term("cat"), b""));
    assert!(!line_matches(&term("cat"), b"ca"));
    assert_eq!(count_words(&term("cat"), b""), 0);
}

#[test]
fn later_occurrence_is_found_behind_an_embedded_one() {
    assert!(line_matches(&term("cat"), b"category cat"));
    assert_eq!(find_word(&term("cat"), b"category cat", 0), Some(9));
    assert_eq!(count_words(&term("cat"), b"category cat"), 1);
}

#[test]
fn find_word_starts_at_the_given_index() {
    let line = b"cat cat cat";
    assert_eq!(find_word(&term("cat"), line, 0), Some(0));
    assert_eq!(find_word(&term("cat"), line, 1), Some(4));
    assert_eq!(find_word(&term("cat"), line, 5), Some(8));
    assert_eq!(find_word(&term("cat"), line, 9), None);
    assert_eq!(find_word(&term("cat"), line, 100), None);
}

#[test]
fn word_starts_at_checks_one_index() {
    let line = b"a cat";
    assert!(word_starts_at(&term("cat"), line, 2));
    assert!(!word_starts_at(&term("cat"), line, 0));
    assert!(!word_starts_at(&term("cat"), line, 3));
    assert!(!word_starts_at(&term("cat"), line, 5));
    assert!(!word_starts_at(&term("cat"), line, usize::MAX));
}

#[test]
fn adjacent_occurrences_share_the_byte_between_them() {
    assert_eq!(count_words(&term("cat"), b"cat cat"), 2);
    assert_eq!(count_words(&term("cat"), b"cat,cat,cat"), 3);
}

#[test]
fn occurrences_that_overlap_count_once() {
    // The second occurrence would start inside the first.
    assert_eq!(count_words(&term("a.a"), b"a.a.a"), 1);
    assert_eq!(count_words(&term("a.a"), b"a.a a.a"), 2);
}

#[test]
fn count_is_zero_exactly_where_nothing_matches() {
    for line in [&b"the cat sat"[..], b"category", b"cat", b"", b"catcat", b"cat cat"] {
        let t = term("cat");
        assert_eq!(count_words(&t, line) >= 1, line_matches(&t, line));
    }
}
