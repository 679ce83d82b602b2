use simplegrep::scan::{
    hits_in_line, scan_content, CountPolicy, FileOutcome, FileScan, ScanStep,
};
use simplegrep::term::SearchTerm;

fn term(text: &str) -> SearchTerm {
    SearchTerm::new(text.as_bytes()).unwrap()
}

fn scan_chunks(t: &SearchTerm, policy: CountPolicy, chunks: &[&[u8]]) -> FileOutcome {
    let mut scan = FileScan::new(t, policy);
    for chunk in chunks {
        scan.feed(chunk).unwrap();
    }
    scan.finish()
}

#[test]
fn default_policy_counts_matching_lines() {
    assert_eq!(CountPolicy::default(), CountPolicy::MatchingLines);
}

#[test]
fn three_lines_with_fish_count_three() {
    let content = b"one fish\ntwo fish\nred fish\n";
    assert_eq!(
        scan_content(&term("fish"), CountPolicy::MatchingLines, content),
        FileOutcome::Count(3)
    );
}

#[test]
fn policies_differ_where_a_line_holds_the_term_twice() {
    let content = b"fish fish\nno\nfish";
    assert_eq!(
        scan_content(&term("fish"), CountPolicy::MatchingLines, content),
        FileOutcome::Count(2)
    );
    assert_eq!(
        scan_content(&term("fish"), CountPolicy::Occurrences, content),
        FileOutcome::Count(3)
    );
}

#[test]
fn line_hits_follow_the_policy() {
    let t = term("fish");
    assert_eq!(hits_in_line(&t, CountPolicy::MatchingLines, b"fish fish fish"), 1);
    assert_eq!(hits_in_line(&t, CountPolicy::Occurrences, b"fish fish fish"), 3);
    assert_eq!(hits_in_line(&t, CountPolicy::MatchingLines, b"fishes"), 0);
    assert_eq!(hits_in_line(&t, CountPolicy::Occurrences, b"fishes"), 0);
}

#[test]
fn standalone_term_is_counted() {
    for content in [&b"the cat sat"[..], b"cat", b"cat\n", b"\ncat", b"a\ncat\nb", b"dog\n(cat)"] {
        for policy in [CountPolicy::MatchingLines, CountPolicy::Occurrences] {
            assert_eq!(scan_content(&term("cat"), policy, content), FileOutcome::Count(1));
        }
    }
}

#[test]
fn embedded_term_is_not_counted() {
    for content in [&b"category"[..], b"concat\ncats\n", b"", b"\n\n", b"ca\nt"] {
        for policy in [CountPolicy::MatchingLines, CountPolicy::Occurrences] {
            assert_eq!(scan_content(&term("cat"), policy, content), FileOutcome::Count(0));
        }
    }
}

#[test]
fn line_that_is_exactly_the_term_is_counted() {
    assert_eq!(
        scan_content(&term("dog"), CountPolicy::MatchingLines, b"dog"),
        FileOutcome::Count(1)
    );
    assert_eq!(
        scan_content(&term("dog"), CountPolicy::MatchingLines, b"cat\ndog\nbird\n"),
        FileOutcome::Count(1)
    );
}

#[test]
fn binary_file_has_no_count() {
    let t = term("cat");
    // The marker before the first line terminator.
    assert_eq!(scan_content(&t, CountPolicy::MatchingLines, b"cat\0\ncat\n"), FileOutcome::Binary);
    assert_eq!(scan_content(&t, CountPolicy::MatchingLines, b"\0"), FileOutcome::Binary);
    // The marker anywhere else.
    assert_eq!(scan_content(&t, CountPolicy::MatchingLines, b"cat\ncat\n\0"), FileOutcome::Binary);
    assert_eq!(scan_content(&t, CountPolicy::Occurrences, b"cat\n\0cat"), FileOutcome::Binary);
    assert_eq!(FileOutcome::Binary.count(), 0);
    assert_eq!(FileOutcome::Count(7).count(), 7);
}

#[test]
fn feed_tells_when_the_stream_turned_binary() {
    let t = term("cat");
    let mut scan = FileScan::new(&t, CountPolicy::MatchingLines);
    assert_eq!(scan.feed(b"cat\n"), Ok(ScanStep::Continue));
    assert_eq!(scan.feed(b"ca\0t"), Ok(ScanStep::Binary));
    assert_eq!(scan.feed(b"cat\n"), Ok(ScanStep::Binary));
    assert_eq!(scan.finish(), FileOutcome::Binary);
}

#[test]
fn streamed_scan_equals_scan_in_one_piece() {
    let whole: &[u8] = b"cat\nthe cat sat\ncategory\n\ncat cat\nconcat cat";
    for policy in [CountPolicy::MatchingLines, CountPolicy::Occurrences] {
        let t = term("cat");
        let expected = scan_content(&t, policy, whole);
        for cut in 0..=whole.len() {
            assert_eq!(scan_chunks(&t, policy, &[&whole[..cut], &whole[cut..]]), expected);
        }
        let bytes: Vec<&[u8]> = whole.chunks(1).collect();
        assert_eq!(scan_chunks(&t, policy, &bytes), expected);
    }
    assert_eq!(
        scan_content(&term("cat"), CountPolicy::MatchingLines, whole),
        FileOutcome::Count(4)
    );
    assert_eq!(scan_content(&term("cat"), CountPolicy::Occurrences, whole), FileOutcome::Count(5));
}

#[test]
fn scan_of_nothing_counts_nothing() {
    let t = term("cat");
    assert_eq!(scan_chunks(&t, CountPolicy::MatchingLines, &[]), FileOutcome::Count(0));
}

#[test]
fn scanning_twice_gives_the_same_outcome() {
    let t = term("cat");
    let content = b"a cat\nb cat\n";
    let first = scan_content(&t, CountPolicy::MatchingLines, content);
    let second = scan_content(&t, CountPolicy::MatchingLines, content);
    assert_eq!(first, second);
    assert_eq!(first, FileOutcome::Count(2));
}
