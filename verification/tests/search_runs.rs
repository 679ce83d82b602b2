use simplegrep::cli::{
    error_message, exit_code, parse_args, usage, CliError, EXIT_FAILURE, EXIT_SUCCESS,
};
use simplegrep::report::{FileCount, MatchCount, Recorded, ScanResult};
use simplegrep::scan::{CountPolicy, FileOutcome};
use simplegrep::search::{search, Search, TreeEntry};
use simplegrep::term::{SearchTerm, TermError};
use simplegrep::walk::{EntryKind, FileEnumerator, FileTask, WalkEvent, WalkStep};

fn term(text: &str) -> SearchTerm {
    SearchTerm::new(text.as_bytes()).unwrap()
}

fn file(path: &str, content: &[u8]) -> TreeEntry {
    TreeEntry::File { path: path.to_string(), content: content.to_vec() }
}

fn args(words: &[&str]) -> Vec<Vec<u8>> {
    words.iter().map(|w| w.as_bytes().to_vec()).collect()
}

fn task(path: &str, kind: EntryKind) -> FileTask {
    FileTask { path: path.to_string(), kind }
}

fn listing(found: &Search) -> Vec<(String, u64)> {
    let counts = found.counts();
    let mut all = Vec::new();
    for i in 0..counts.len() {
        let entry = counts.get(i).unwrap();
        all.push((entry.path.clone(), entry.count));
    }
    all
}

#[test]
fn cat_is_listed_and_category_is_not() {
    let tree = vec![file("a.txt", b"the cat sat"), file("b.txt", b"category")];
    let found = search(term("cat"), CountPolicy::MatchingLines, &tree);
    assert_eq!(listing(&found), vec![("a.txt".to_string(), 1)]);
    assert_eq!(found.counts().count_for("a.txt"), Some(1));
    assert_eq!(found.counts().count_for("b.txt"), None);
    assert!(found.diagnostics().is_empty());
}

#[test]
fn empty_tree_gives_an_empty_report() {
    let tree = vec![TreeEntry::Directory { path: "./".to_string() }];
    let found = search(term("anything"), CountPolicy::MatchingLines, &tree);
    assert_eq!(found.counts().len(), 0);
    assert!(found.diagnostics().is_empty());
    let none = search(term("anything"), CountPolicy::MatchingLines, &Vec::new());
    assert_eq!(none.counts().len(), 0);
    assert_eq!(exit_code(&parse_args(&args(&["simplegrep", "anything"]))), 0);
}

#[test]
fn term_alone_on_a_line_is_counted() {
    let tree = vec![file("pets.txt", b"cat\ndog\nbird\n")];
    let found = search(term("dog"), CountPolicy::MatchingLines, &tree);
    assert_eq!(listing(&found), vec![("pets.txt".to_string(), 1)]);
}

#[test]
fn three_lines_with_fish_are_listed_with_three() {
    let tree = vec![file("fish.txt", b"fish\na fish\nfish and chips\n")];
    let found = search(term("fish"), CountPolicy::MatchingLines, &tree);
    assert_eq!(listing(&found), vec![("fish.txt".to_string(), 3)]);
}

#[test]
fn unreadable_subdirectory_is_reported_and_the_walk_goes_on() {
    let tree = vec![
        TreeEntry::Directory { path: "./".to_string() },
        TreeEntry::Failure { message: "./locked: permission denied".to_string() },
        file("./a.txt", b"no match here"),
        file("./b.txt", b"a dog barks"),
    ];
    let found = search(term("dog"), CountPolicy::MatchingLines, &tree);
    assert_eq!(listing(&found), vec![("./b.txt".to_string(), 1)]);
    assert_eq!(found.diagnostics(), &vec!["./locked: permission denied".to_string()]);
}

#[test]
fn report_keeps_the_order_of_discovery() {
    let tree = vec![
        file("z.txt", b"cat"),
        file("m.txt", b"dog"),
        file("a.txt", b"cat\ncat"),
        TreeEntry::Other { path: "socket".to_string() },
        file("b.txt", b"a cat"),
    ];
    let found = search(term("cat"), CountPolicy::MatchingLines, &tree);
    assert_eq!(
        listing(&found),
        vec![("z.txt".to_string(), 1), ("a.txt".to_string(), 2), ("b.txt".to_string(), 1)]
    );
}

#[test]
fn binary_file_is_left_out_of_the_report() {
    let tree = vec![file("bin", b"cat\0\ncat\n"), file("late", b"cat\n\0"), file("text", b"cat")];
    let found = search(term("cat"), CountPolicy::MatchingLines, &tree);
    assert_eq!(listing(&found), vec![("text".to_string(), 1)]);
    assert!(found.diagnostics().is_empty());
}

#[test]
fn unreadable_file_becomes_a_diagnostic() {
    let tree = vec![
        TreeEntry::Unreadable { path: "secret".to_string(), error: "permission denied".to_string() },
        file("open", b"cat"),
    ];
    let found = search(term("cat"), CountPolicy::MatchingLines, &tree);
    assert_eq!(listing(&found), vec![("open".to_string(), 1)]);
    assert_eq!(found.diagnostics(), &vec!["secret: permission denied".to_string()]);
}

#[test]
fn file_met_twice_is_scanned_once() {
    let tree = vec![file("a.txt", b"cat"), file("a.txt", b"cat\ncat"), file("b.txt", b"cat")];
    let found = search(term("cat"), CountPolicy::MatchingLines, &tree);
    assert_eq!(listing(&found), vec![("a.txt".to_string(), 1), ("b.txt".to_string(), 1)]);
}

#[test]
fn searching_twice_gives_the_same_report() {
    let tree = vec![
        file("a.txt", b"the cat sat"),
        TreeEntry::Failure { message: "gone".to_string() },
        file("b.txt", b"category"),
        file("c.txt", b"cat\ncat"),
    ];
    let first = search(term("cat"), CountPolicy::MatchingLines, &tree);
    let second = search(term("cat"), CountPolicy::MatchingLines, &tree);
    assert_eq!(listing(&first), listing(&second));
    assert_eq!(first.diagnostics(), second.diagnostics());
}

#[test]
fn second_pass_over_the_same_tree_changes_no_count() {
    let tree = vec![file("a.txt", b"the cat sat"), file("b.txt", b"category"), file("c.txt", b"cat")];
    let mut found = search(term("cat"), CountPolicy::MatchingLines, &tree);
    let before = listing(&found);
    for entry in &tree {
        found.visit(entry);
    }
    assert_eq!(listing(&found), before);
}

#[test]
fn occurrence_policy_counts_every_occurrence() {
    let tree = vec![file("a.txt", b"cat cat\ncat")];
    let found = search(term("cat"), CountPolicy::Occurrences, &tree);
    assert_eq!(listing(&found), vec![("a.txt".to_string(), 3)]);
    assert_eq!(found.policy(), CountPolicy::Occurrences);
    assert_eq!(found.term().as_bytes(), b"cat");
}

#[test]
fn search_can_be_driven_event_by_event() {
    let mut run = Search::new(term("cat"), CountPolicy::MatchingLines);
    let step = run.observe(WalkEvent::Entry(task("d", EntryKind::Directory)));
    assert_eq!(step, WalkStep::Skip);
    let step = run.observe(WalkEvent::Entry(task("d/a", EntryKind::File)));
    assert_eq!(step, WalkStep::Scan(task("d/a", EntryKind::File)));
    let outcome = {
        let mut scan = run.begin_scan();
        scan.feed(b"a c").unwrap();
        scan.feed(b"at\nthe cat").unwrap();
        scan.finish()
    };
    assert_eq!(outcome, FileOutcome::Count(2));
    assert_eq!(run.record(ScanResult::scanned("d/a".to_string(), outcome)), Recorded::Listed);
    let step = run.observe(WalkEvent::Failure { message: "d/x: gone".to_string() });
    assert_eq!(step, WalkStep::Diagnose { message: "d/x: gone".to_string() });
    let step = run.observe(WalkEvent::Entry(task("d/a", EntryKind::File)));
    assert_eq!(step, WalkStep::Skip);
    let failed = ScanResult::failed("d/b".to_string(), "read error".to_string());
    assert_eq!(run.record(failed), Recorded::Failed);
    assert_eq!(listing(&run), vec![("d/a".to_string(), 2)]);
    assert_eq!(
        run.diagnostics(),
        &vec!["d/x: gone".to_string(), "d/b: read error".to_string()]
    );
}

#[test]
fn enumerator_hands_on_each_file_once() {
    let mut files = FileEnumerator::new();
    assert!(!files.has_seen("a"));
    let entry = |path: &str, kind| WalkEvent::Entry(task(path, kind));
    assert_eq!(files.observe(entry("a", EntryKind::File)), WalkStep::Scan(task("a", EntryKind::File)));
    assert!(files.has_seen("a"));
    assert_eq!(files.observe(entry("a", EntryKind::File)), WalkStep::Skip);
    assert_eq!(files.observe(entry("b", EntryKind::Directory)), WalkStep::Skip);
    assert_eq!(files.observe(entry("c", EntryKind::Other)), WalkStep::Skip);
    assert!(!files.has_seen("b"));
    assert_eq!(files.observe(entry("b", EntryKind::File)), WalkStep::Scan(task("b", EntryKind::File)));
    assert_eq!(
        files.observe(WalkEvent::Failure { message: "no".to_string() }),
        WalkStep::Diagnose { message: "no".to_string() }
    );
}

#[test]
fn report_takes_each_kind_of_result() {
    let mut report = MatchCount::new();
    let ok = |path: &str, n: u64| ScanResult::scanned(path.to_string(), FileOutcome::Count(n));
    assert_eq!(report.record(ok("a", 2)), Recorded::Listed);
    assert_eq!(report.record(ok("b", 0)), Recorded::Omitted);
    assert_eq!(report.record(ok("a", 5)), Recorded::Duplicate);
    let binary = ScanResult::scanned("c".to_string(), FileOutcome::Binary);
    assert_eq!(binary.count, 0);
    assert_eq!(report.record(binary), Recorded::Omitted);
    let failed = ScanResult::failed("d".to_string(), "gone".to_string());
    assert_eq!(failed.error, Some("gone".to_string()));
    assert_eq!(report.record(failed), Recorded::Failed);
    assert_eq!(report.record(ok("e", 1)), Recorded::Listed);
    assert_eq!(report.len(), 2);
    assert_eq!(report.get(0), Some(&FileCount { path: "a".to_string(), count: 2 }));
    assert_eq!(report.get(1), Some(&FileCount { path: "e".to_string(), count: 1 }));
    assert_eq!(report.get(2), None);
    assert_eq!(report.count_for("a"), Some(2));
    assert_eq!(report.count_for("b"), None);
    assert_eq!(report.count_for("d"), None);
}

#[test]
fn missing_term_is_a_usage_error() {
    assert_eq!(parse_args(&vec![]).unwrap_err(), CliError::Usage);
    let started = parse_args(&args(&["simplegrep"]));
    assert_eq!(exit_code(&started), 1);
    assert_eq!(started.unwrap_err(), CliError::Usage);
    assert_eq!(error_message(CliError::Usage), "Usage: simplegrep <pattern> [<path> ...]");
    assert_eq!(usage(), "Usage: simplegrep <pattern> [<path> ...]");
}

#[test]
fn search_starts_in_the_current_directory_by_default() {
    let run = parse_args(&args(&["simplegrep", "cat"])).unwrap();
    assert_eq!(run.term.as_bytes(), b"cat");
    assert_eq!(run.roots, vec![b"./".to_vec()]);
}

#[test]
fn roots_are_the_arguments_behind_the_term() {
    let run = parse_args(&args(&["simplegrep", "cat", "src", "/tmp/x"])).unwrap();
    assert_eq!(run.roots, vec![b"src".to_vec(), b"/tmp/x".to_vec()]);
    assert_eq!(exit_code(&Ok(run)), EXIT_SUCCESS);
}

#[test]
fn unusable_term_ends_the_run() {
    let started = parse_args(&args(&["simplegrep", "", "src"]));
    assert_eq!(exit_code(&started), EXIT_FAILURE);
    assert_eq!(started.unwrap_err(), CliError::Term(TermError::Empty));
    assert_eq!(
        parse_args(&args(&["simplegrep", "a\nb"])).unwrap_err(),
        CliError::Term(TermError::ContainsLineTerminator)
    );
    assert_eq!(error_message(CliError::Term(TermError::Empty)), "the search term is empty");
    assert_eq!(
        error_message(CliError::Term(TermError::ContainsLineTerminator)),
        "the search term holds a line terminator"
    );
}

#[test]
fn term_that_is_not_text_ends_the_run() {
    // 0xFF stands in no UTF-8 text; a cut-off character is no text either.
    for bad in [&[0x63u8, 0xFF, 0x74][..], &[0xC3], &[0xE2, 0x82], &[0x80, 0x61]] {
        let given = vec![b"simplegrep".to_vec(), bad.to_vec(), b"src".to_vec()];
        let started = parse_args(&given);
        assert_eq!(exit_code(&started), EXIT_FAILURE);
        assert_eq!(started.unwrap_err(), CliError::NotText);
    }
    assert_eq!(error_message(CliError::NotText), "the search term is not valid UTF-8");
    // Roots need not be text.
    let given = vec![b"simplegrep".to_vec(), b"cat".to_vec(), vec![0xFF, 0x2F]];
    assert_eq!(parse_args(&given).unwrap().roots, vec![vec![0xFF, 0x2F]]);
}

#[test]
fn term_of_several_bytes_per_character_is_taken_as_bytes() {
    let run = parse_args(&args(&["simplegrep", "né"])).unwrap();
    assert_eq!(run.term.as_bytes(), "né".as_bytes());
    // In "année" a letter follows the term; in "né!" a non-word byte does.
    let tree = vec![
        file("f", "il est né ici".as_bytes()),
        file("g", "année".as_bytes()),
        file("h", "né!".as_bytes()),
    ];
    let found = search(run.term, CountPolicy::MatchingLines, &tree);
    assert_eq!(listing(&found), vec![("f".to_string(), 1), ("h".to_string(), 1)]);
}
