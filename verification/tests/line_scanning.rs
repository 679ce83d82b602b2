use simplegrep::lines::{holds_marker, LineScanner};

fn drain(scanner: &mut LineScanner) -> Vec<Vec<u8>> {
    let mut lines = Vec::new();
    while let Some(line) = scanner.next_line() {
        lines.push(line);
    }
    lines
}

fn lines_of_chunks(chunks: &[&[u8]]) -> Vec<Vec<u8>> {
    let mut scanner = LineScanner::new();
    let mut lines = Vec::new();
    for chunk in chunks {
        scanner.feed(chunk);
        lines.extend(drain(&mut scanner));
    }
    scanner.close();
    lines.extend(drain(&mut scanner));
    lines
}

fn owned(lines: &[&[u8]]) -> Vec<Vec<u8>> {
    lines.iter().map(|l| l.to_vec()).collect()
}

#[test]
fn empty_stream_has_no_line() {
    assert_eq!(lines_of_chunks(&[]), owned(&[]));
    assert_eq!(lines_of_chunks(&[b""]), owned(&[]));
}

#[test]
fn terminator_is_stripped() {
    assert_eq!(lines_of_chunks(&[b"a\nb\n"]), owned(&[b"a", b"b"]));
}

#[test]
fn last_line_needs_no_terminator() {
    assert_eq!(lines_of_chunks(&[b"a\nb"]), owned(&[b"a", b"b"]));
    assert_eq!(lines_of_chunks(&[b"dog"]), owned(&[b"dog"]));
}

#[test]
fn empty_lines_are_lines() {
    assert_eq!(lines_of_chunks(&[b"\n"]), owned(&[b""]));
    assert_eq!(lines_of_chunks(&[b"a\n\nb"]), owned(&[b"a", b"", b"b"]));
    assert_eq!(lines_of_chunks(&[b"\n\n"]), owned(&[b"", b""]));
}

#[test]
fn carriage_return_stays_in_the_line() {
    assert_eq!(lines_of_chunks(&[b"a\r\nb"]), owned(&[b"a\r", b"b"]));
}

#[test]
fn chunking_makes_no_difference() {
    let whole: &[u8] = b"the cat\nsat on\n\nthe mat";
    let expected = lines_of_chunks(&[whole]);
    assert_eq!(expected, owned(&[b"the cat", b"sat on", b"", b"the mat"]));
    for cut in 0..=whole.len() {
        assert_eq!(lines_of_chunks(&[&whole[..cut], &whole[cut..]]), expected, "cut at {}", cut);
    }
    let bytes: Vec<&[u8]> = whole.chunks(1).collect();
    assert_eq!(lines_of_chunks(&bytes), expected);
}

#[test]
fn open_line_is_held_back_until_close() {
    let mut scanner = LineScanner::new();
    scanner.feed(b"a\nb");
    assert_eq!(scanner.next_line(), Some(b"a".to_vec()));
    assert_eq!(scanner.next_line(), None);
    scanner.feed(b"c\n");
    assert_eq!(scanner.next_line(), Some(b"bc".to_vec()));
    assert_eq!(scanner.next_line(), None);
    scanner.feed(b"d");
    assert_eq!(scanner.next_line(), None);
    scanner.close();
    assert_eq!(scanner.next_line(), Some(b"d".to_vec()));
    assert_eq!(scanner.next_line(), None);
    assert_eq!(scanner.next_line(), None);
}

#[test]
fn bytes_fed_after_close_are_dropped() {
    let mut scanner = LineScanner::new();
    scanner.feed(b"a");
    scanner.close();
    scanner.feed(b"b\nc\n");
    assert_eq!(scanner.next_line(), Some(b"a".to_vec()));
    assert_eq!(scanner.next_line(), None);
}

#[test]
fn binary_stream_hands_out_no_line() {
    let mut scanner = LineScanner::new();
    scanner.feed(b"a\nb\0c\nd\n");
    assert!(scanner.found_binary());
    assert_eq!(scanner.next_line(), None);
    scanner.feed(b"e\n");
    scanner.close();
    assert_eq!(scanner.next_line(), None);
    assert!(scanner.found_binary());
}

#[test]
fn lines_before_the_marker_arrived_are_handed_out() {
    let mut scanner = LineScanner::new();
    scanner.feed(b"a\n");
    assert!(!scanner.found_binary());
    assert_eq!(scanner.next_line(), Some(b"a".to_vec()));
    scanner.feed(b"\0");
    assert!(scanner.found_binary());
    assert_eq!(scanner.next_line(), None);
}

#[test]
fn marker_is_the_nul_byte() {
    assert!(holds_marker(b"\0"));
    assert!(holds_marker(b"abc\0def"));
    assert!(!holds_marker(b""));
    assert!(!holds_marker(b"abc\n\x01\xff"));
}
