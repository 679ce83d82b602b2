//! The count for one file.
//!
//! A file's count is the sum, over its lines, of what the counting policy
//! finds in each line. A binary file has no count: it is left out of the
//! results, whatever its lines hold.
//!
//! [`FileScan`] computes the count of a file that is read in chunks;
//! [`scan_content`] does so for bytes that are at hand in one piece. How the
//! bytes are cut into chunks makes no difference.

use crate::lines::{
    is_binary, lemma_complete_lines_stable, lemma_line_end, line_end, lines_of, LineScanner,
    BINARY_MARKER,
};
use crate::term::{valid_term, SearchTerm, LINE_TERMINATOR};
use crate::word::{
    count_words, has_word, is_word_byte, lemma_count_bounded, lemma_count_positive_iff_has_word,
    line_matches, word_at, word_count,
};
use vstd::prelude::*;

verus! {

/// What is counted in a line.
#[derive(Clone, Copy, Debug, PartialEq, Eq, Structural)]
pub enum CountPolicy {
    /// A line in which the term stands as a whole word counts once, however
    /// often the term stands in it. This is the default.
    MatchingLines,
    /// Every whole-word occurrence counts, as far as the occurrences of one
    /// line do not overlap.
    Occurrences,
}

impl Default for CountPolicy {
    fn default() -> (policy: CountPolicy)
        ensures
            policy == CountPolicy::MatchingLines,
    {
        CountPolicy::MatchingLines
    }
}

/// What one line adds to the count of its file.
pub open spec fn line_hits(line: Seq<u8>, term: Seq<u8>, policy: CountPolicy) -> nat {
    match policy {
        CountPolicy::MatchingLines => if has_word(line, term) {
            1
        } else {
            0
        },
        CountPolicy::Occurrences => word_count(line, term),
    }
}

/// What the given lines add up to.
pub open spec fn hits_in(lines: Seq<Seq<u8>>, term: Seq<u8>, policy: CountPolicy) -> nat
    decreases lines.len(),
{
    if lines.len() == 0 {
        0
    } else {
        hits_in(lines.drop_last(), term, policy) + line_hits(lines.last(), term, policy)
    }
}

/// What the lines of `content` add up to.
pub open spec fn content_hits(content: Seq<u8>, term: Seq<u8>, policy: CountPolicy) -> nat {
    hits_in(lines_of(content), term, policy)
}

/// The count with which a file of the given content goes into the results:
/// none for a binary file.
pub open spec fn reported_count(content: Seq<u8>, term: Seq<u8>, policy: CountPolicy) -> nat {
    if is_binary(content) {
        0
    } else {
        content_hits(content, term, policy)
    }
}

/// The binary marker stands in the first line of `content`.
pub open spec fn marker_in_first_line(content: Seq<u8>) -> bool {
    exists|i: int| 0 <= i < line_end(content) && content[i] == BINARY_MARKER
}

/// How the scan of one file ended.
#[derive(Clone, Copy, Debug, PartialEq, Eq, Structural)]
pub enum FileOutcome {
    /// The file is binary and has no count.
    Binary,
    /// The file is text, with this count.
    Count(u64),
}

/// `outcome` is how the scan of `content` ends.
pub open spec fn is_outcome_of(
    outcome: FileOutcome,
    content: Seq<u8>,
    term: Seq<u8>,
    policy: CountPolicy,
) -> bool {
    match outcome {
        FileOutcome::Binary => is_binary(content),
        FileOutcome::Count(n) => !is_binary(content) && n == content_hits(content, term, policy),
    }
}

impl FileOutcome {
    /// The count that goes into the results: 0 for a binary file.
    pub open spec fn count_spec(&self) -> u64 {
        match *self {
            FileOutcome::Binary => 0,
            FileOutcome::Count(c) => c,
        }
    }

    /// The count that goes into the results: 0 for a binary file.
    #[verifier::when_used_as_spec(count_spec)]
    pub fn count(&self) -> (n: u64)
        ensures
            n == self.count_spec(),
    {
        match self {
            FileOutcome::Binary => 0,
            FileOutcome::Count(c) => *c,
        }
    }
}

/// The sum over lines splits where the lines are split.
pub proof fn lemma_hits_concat(
    a: Seq<Seq<u8>>,
    b: Seq<Seq<u8>>,
    term: Seq<u8>,
    policy: CountPolicy,
)
    ensures
        hits_in(a + b, term, policy) == hits_in(a, term, policy) + hits_in(b, term, policy),
    decreases b.len(),
{
    if b.len() == 0 {
        assert(a + b =~= a);
    } else {
        assert((a + b).drop_last() =~= a + b.drop_last());
        assert((a + b).last() == b.last());
        lemma_hits_concat(a, b.drop_last(), term, policy);
    }
}

/// One line adds up to what it holds.
pub proof fn lemma_hits_single(line: Seq<u8>, term: Seq<u8>, policy: CountPolicy)
    ensures
        hits_in(seq![line], term, policy) == line_hits(line, term, policy),
{
    let one = seq![line];
    assert(one.drop_last() =~= Seq::<Seq<u8>>::empty());
    assert(hits_in(one.drop_last(), term, policy) == 0);
    assert(one.last() == line);
}

/// A line adds at most as much as it has bytes.
pub proof fn lemma_line_hits_bounded(line: Seq<u8>, term: Seq<u8>, policy: CountPolicy)
    requires
        term.len() > 0,
    ensures
        line_hits(line, term, policy) <= line.len(),
        line_hits(line, term, policy) >= 1 <==> has_word(line, term),
{
    lemma_count_bounded(line, term, 0);
    lemma_count_positive_iff_has_word(line, term);
    if has_word(line, term) {
        let at = choose|at: int| word_at(line, term, at);
        assert(line.len() >= term.len());
    }
}

/// A file's lines add up to at most as much as the file has bytes.
pub proof fn lemma_content_hits_bounded(content: Seq<u8>, term: Seq<u8>, policy: CountPolicy)
    requires
        term.len() > 0,
    ensures
        content_hits(content, term, policy) <= content.len(),
    decreases content.len(),
{
    if content.len() > 0 {
        lemma_line_end(content);
        let k = line_end(content);
        if k < content.len() {
            let head = content.take(k);
            let tail = content.skip(k + 1);
            lemma_content_hits_bounded(tail, term, policy);
            lemma_hits_concat(seq![head], lines_of(tail), term, policy);
            lemma_line_hits_bounded(head, term, policy);
            lemma_hits_single(head, term, policy);
        } else {
            lemma_line_hits_bounded(content, term, policy);
            lemma_hits_single(content, term, policy);
        }
    }
}

/// The first lines of a file add up to at most as much as the file has
/// bytes.
pub proof fn lemma_hits_prefix_bounded(
    content: Seq<u8>,
    term: Seq<u8>,
    policy: CountPolicy,
    n: int,
)
    requires
        term.len() > 0,
        0 <= n <= lines_of(content).len(),
    ensures
        hits_in(lines_of(content).take(n), term, policy) <= content.len(),
{
    let all = lines_of(content);
    assert(all =~= all.take(n) + all.skip(n));
    lemma_hits_concat(all.take(n), all.skip(n), term, policy);
    lemma_content_hits_bounded(content, term, policy);
}

/// Lines add up to something exactly when the term stands in one of them as
/// a whole word.
pub proof fn lemma_hits_positive_iff_some_line(
    lines: Seq<Seq<u8>>,
    term: Seq<u8>,
    policy: CountPolicy,
)
    requires
        term.len() > 0,
    ensures
        hits_in(lines, term, policy) >= 1 <==> exists|i: int|
            0 <= i < lines.len() && has_word(#[trigger] lines[i], term),
    decreases lines.len(),
{
    if lines.len() > 0 {
        let front = lines.drop_last();
        lemma_hits_positive_iff_some_line(front, term, policy);
        lemma_line_hits_bounded(lines.last(), term, policy);
        if hits_in(lines, term, policy) >= 1 {
            if has_word(lines.last(), term) {
                assert(has_word(lines[lines.len() - 1], term));
            } else {
                let i = choose|i: int| 0 <= i < front.len() && has_word(#[trigger] front[i], term);
                assert(has_word(lines[i], term));
            }
        }
        if exists|i: int| 0 <= i < lines.len() && has_word(#[trigger] lines[i], term) {
            let i = choose|i: int| 0 <= i < lines.len() && has_word(#[trigger] lines[i], term);
            if i < lines.len() - 1 {
                assert(has_word(front[i], term));
            }
        }
    }
}

/// A whole word of a file lies in one line: in the first line or in what
/// follows its terminator.
pub proof fn lemma_word_splits_at_terminator(head: Seq<u8>, tail: Seq<u8>, term: Seq<u8>)
    requires
        valid_term(term),
    ensures
        has_word(head + seq![LINE_TERMINATOR] + tail, term) <==> has_word(head, term) || has_word(
            tail,
            term,
        ),
{
    let s = head + seq![LINE_TERMINATOR] + tail;
    let k = head.len() as int;
    let w = term.len() as int;
    assert(!is_word_byte(LINE_TERMINATOR));
    assert(s[k] == LINE_TERMINATOR);
    if has_word(s, term) {
        let at = choose|at: int| word_at(s, term, at);
        if at <= k && k < at + w {
            assert(s.subrange(at, at + w)[k - at] == s[k]);
            assert(term.contains(term[k - at]));
        } else if at + w <= k {
            assert(head.subrange(at, at + w) =~= s.subrange(at, at + w));
            if at > 0 {
                assert(s[at - 1] == head[at - 1]);
            }
            if at + w < k {
                assert(s[at + w] == head[at + w]);
            }
            assert(word_at(head, term, at));
        } else {
            let j = at - k - 1;
            assert(tail.subrange(j, j + w) =~= s.subrange(at, at + w));
            if j > 0 {
                assert(s[at - 1] == tail[j - 1]);
            }
            if j + w < tail.len() {
                assert(s[at + w] == tail[j + w]);
            }
            assert(word_at(tail, term, j));
        }
    }
    if has_word(head, term) {
        let at = choose|at: int| word_at(head, term, at);
        assert(s.subrange(at, at + w) =~= head.subrange(at, at + w));
        if at > 0 {
            assert(s[at - 1] == head[at - 1]);
        }
        if at + w < k {
            assert(s[at + w] == head[at + w]);
        }
        assert(word_at(s, term, at));
    }
    if has_word(tail, term) {
        let j = choose|j: int| word_at(tail, term, j);
        let at = j + k + 1;
        assert(s.subrange(at, at + w) =~= tail.subrange(j, j + w));
        if j > 0 {
            assert(s[at - 1] == tail[j - 1]);
        }
        if j + w < tail.len() {
            assert(s[at + w] == tail[j + w]);
        }
        assert(word_at(s, term, at));
    }
}

/// The term stands in a file as a whole word exactly when it stands so in
/// one of the file's lines.
pub proof fn lemma_word_in_content_iff_in_line(content: Seq<u8>, term: Seq<u8>)
    requires
        valid_term(term),
    ensures
        has_word(content, term) <==> exists|i: int|
            0 <= i < lines_of(content).len() && has_word(#[trigger] lines_of(content)[i], term),
    decreases content.len(),
{
    let lines = lines_of(content);
    if content.len() == 0 {
        if has_word(content, term) {
            let at = choose|at: int| word_at(content, term, at);
        }
    } else {
        lemma_line_end(content);
        let k = line_end(content);
        if k < content.len() {
            let head = content.take(k);
            let tail = content.skip(k + 1);
            assert(content =~= head + seq![LINE_TERMINATOR] + tail);
            lemma_word_splits_at_terminator(head, tail, term);
            lemma_word_in_content_iff_in_line(tail, term);
            let rest = lines_of(tail);
            assert(lines == seq![head] + rest);
            if has_word(head, term) {
                assert(has_word(lines[0], term));
            }
            if exists|i: int| 0 <= i < rest.len() && has_word(#[trigger] rest[i], term) {
                let i = choose|i: int| 0 <= i < rest.len() && has_word(#[trigger] rest[i], term);
                assert(lines[i + 1] == rest[i]);
                assert(has_word(lines[i + 1], term));
            }
            if exists|i: int| 0 <= i < lines.len() && has_word(#[trigger] lines[i], term) {
                let i = choose|i: int| 0 <= i < lines.len() && has_word(#[trigger] lines[i], term);
                if i > 0 {
                    assert(lines[i] == rest[i - 1]);
                    assert(has_word(rest[i - 1], term));
                }
            }
        } else {
            assert(lines == seq![content]);
            if has_word(content, term) {
                assert(has_word(lines[0], term));
            }
        }
    }
}

/// A text file in which the term stands as a whole word, bounded by the
/// ends of the file, by line terminators or by other non-word bytes, has a
/// count of at least 1, under either policy.
pub proof fn lemma_standalone_term_is_counted(
    content: Seq<u8>,
    term: Seq<u8>,
    policy: CountPolicy,
)
    requires
        valid_term(term),
        !is_binary(content),
        has_word(content, term),
    ensures
        reported_count(content, term, policy) >= 1,
{
    lemma_word_in_content_iff_in_line(content, term);
    lemma_hits_positive_iff_some_line(lines_of(content), term, policy);
}

/// A file in which the term stands only inside longer tokens, never as a
/// whole word, has a count of 0, under either policy.
pub proof fn lemma_embedded_term_is_not_counted(
    content: Seq<u8>,
    term: Seq<u8>,
    policy: CountPolicy,
)
    requires
        valid_term(term),
        !has_word(content, term),
    ensures
        reported_count(content, term, policy) == 0,
{
    lemma_word_in_content_iff_in_line(content, term);
    lemma_hits_positive_iff_some_line(lines_of(content), term, policy);
}

/// A file is counted exactly when it is text and the term stands in it as a
/// whole word.
pub proof fn lemma_counted_iff_standalone(content: Seq<u8>, term: Seq<u8>, policy: CountPolicy)
    requires
        valid_term(term),
    ensures
        reported_count(content, term, policy) >= 1 <==> !is_binary(content) && has_word(
            content,
            term,
        ),
{
    lemma_word_in_content_iff_in_line(content, term);
    lemma_hits_positive_iff_some_line(lines_of(content), term, policy);
}

/// A file with the binary marker before its first line terminator is binary
/// and has a count of 0, whatever term is searched for and whatever else the
/// file holds.
pub proof fn lemma_binary_is_not_counted(content: Seq<u8>, term: Seq<u8>, policy: CountPolicy)
    requires
        marker_in_first_line(content),
    ensures
        is_binary(content),
        reported_count(content, term, policy) == 0,
        forall|outcome: FileOutcome|
            is_outcome_of(outcome, content, term, policy) ==> outcome == FileOutcome::Binary,
{
    lemma_line_end(content);
    let i = choose|i: int| 0 <= i < line_end(content) && content[i] == BINARY_MARKER;
    assert(content.contains(content[i]));
}

/// A scan of given content has one outcome only: scans of the same bytes end
/// alike, however the bytes were cut into chunks.
pub proof fn lemma_outcome_is_determined(
    first: FileOutcome,
    second: FileOutcome,
    content: Seq<u8>,
    term: Seq<u8>,
    policy: CountPolicy,
)
    requires
        is_outcome_of(first, content, term, policy),
        is_outcome_of(second, content, term, policy),
    ensures
        first == second,
{
}

/// What a call of `feed` tells the reader of the file.
#[derive(Clone, Copy, Debug, PartialEq, Eq, Structural)]
pub enum ScanStep {
    /// The stream is text so far: go on reading.
    Continue,
    /// The stream is binary: further bytes change nothing, reading may stop.
    Binary,
}

/// Why a chunk was refused.
#[derive(Clone, Copy, Debug, PartialEq, Eq, Structural)]
pub enum ScanError {
    /// With the chunk, the stream would be longer than a count can tell.
    TooLong,
}

/// Counts what one line adds under `policy`.
pub fn hits_in_line(term: &SearchTerm, policy: CountPolicy, line: &[u8]) -> (n: usize)
    ensures
        n == line_hits(line@, term@, policy),
        n <= line@.len(),
{
    let _width = term.len();
    proof {
        lemma_line_hits_bounded(line@, term@, policy);
    }
    match policy {
        CountPolicy::MatchingLines => {
            if line_matches(term, line) {
                1
            } else {
                0
            }
        },
        CountPolicy::Occurrences => count_words(term, line),
    }
}

/// The scan of one file that is read in chunks.
///
/// The file is what was fed so far. The scan keeps the count of the lines
/// that are complete and the bytes of the line that is not.
pub struct FileScan<'a> {
    term: &'a SearchTerm,
    policy: CountPolicy,
    lines: LineScanner,
    hits: u64,
    fed: u64,
}

impl<'a> FileScan<'a> {
    /// All bytes fed so far.
    pub closed spec fn consumed(&self) -> Seq<u8> {
        self.lines.consumed()
    }

    /// The term that is searched for.
    pub closed spec fn term(&self) -> Seq<u8> {
        self.term@
    }

    /// The policy by which lines are counted.
    pub closed spec fn policy(&self) -> CountPolicy {
        self.policy
    }

    spec fn counted(&self) -> bool {
        self.hits == hits_in(
            lines_of(self.lines.consumed()).take(self.lines.emitted() as int),
            self.term@,
            self.policy,
        )
    }

    /// The scan is consistent: its count is that of the lines that are
    /// complete.
    pub closed spec fn wf(&self) -> bool {
        &&& self.lines.wf()
        &&& !self.lines.is_closed()
        &&& self.term@.len() > 0
        &&& self.fed == self.lines.consumed().len()
        &&& !self.lines.has_next()
        &&& self.counted()
    }

    /// A scan of the empty file.
    pub fn new(term: &'a SearchTerm, policy: CountPolicy) -> (scan: FileScan<'a>)
        ensures
            scan.wf(),
            scan.consumed() == Seq::<u8>::empty(),
            scan.term() == term@,
            scan.policy() == policy,
    {
        let _width = term.len();
        let lines = LineScanner::new();
        proof {
            lines.lemma_emitted_are_ready();
            assert(lines_of(lines.consumed()).take(0) =~= Seq::<Seq<u8>>::empty());
        }
        FileScan { term, policy, lines, hits: 0, fed: 0 }
    }

    /// Counts the lines that are ready.
    fn drain(&mut self)
        requires
            old(self).lines.wf(),
            old(self).term@.len() > 0,
            old(self).fed == old(self).lines.consumed().len(),
            old(self).counted(),
        ensures
            final(self).lines.wf(),
            final(self).lines.consumed() == old(self).lines.consumed(),
            final(self).lines.is_closed() == old(self).lines.is_closed(),
            final(self).term == old(self).term,
            final(self).policy == old(self).policy,
            final(self).fed == old(self).fed,
            final(self).counted(),
            !final(self).lines.has_next(),
    {
        let ghost all = self.lines.consumed();
        let ghost shut = self.lines.is_closed();
        loop
            invariant
                self.lines.wf(),
                self.lines.consumed() == all,
                self.lines.is_closed() == shut,
                self.term == old(self).term,
                self.policy == old(self).policy,
                self.fed == old(self).fed,
                self.term@.len() > 0,
                self.fed == all.len(),
                self.counted(),
            ensures
                !self.lines.has_next(),
            decreases lines_of(all).len() - self.lines.emitted(),
        {
            let ghost before = self.lines.emitted() as int;
            match self.lines.next_line() {
                Some(line) => {
                    let n = hits_in_line(self.term, self.policy, line.as_slice());
                    proof {
                        self.lines.lemma_emitted_are_ready();
                        let listed = lines_of(all);
                        assert(listed.take(before + 1).drop_last() =~= listed.take(before));
                        assert(listed.take(before + 1).last() == line@);
                        lemma_hits_prefix_bounded(all, self.term@, self.policy, before + 1);
                    }
                    self.hits = self.hits + n as u64;
                },
                None => {
                    break ;
                },
            }
        }
    }

    /// Adds `chunk` to the end of the file and counts the lines that it
    /// completes. A chunk that would make the file longer than `u64::MAX`
    /// bytes is refused, and the scan stays as it was.
    pub fn feed(&mut self, chunk: &[u8]) -> (r: Result<ScanStep, ScanError>)
        requires
            old(self).wf(),
        ensures
            final(self).wf(),
            final(self).term() == old(self).term(),
            final(self).policy() == old(self).policy(),
            match r {
                Ok(step) => {
                    &&& old(self).consumed().len() + chunk@.len() <= u64::MAX
                    &&& final(self).consumed() == old(self).consumed() + chunk@
                    &&& step == if is_binary(final(self).consumed()) {
                        ScanStep::Binary
                    } else {
                        ScanStep::Continue
                    }
                },
                Err(ScanError::TooLong) => {
                    &&& old(self).consumed().len() + chunk@.len() > u64::MAX
                    &&& final(self).consumed() == old(self).consumed()
                },
            },
    {
        let more: u64 = chunk.len() as u64;
        if more > u64::MAX - self.fed {
            return Err(ScanError::TooLong);
        }
        let ghost before = self.lines.consumed();
        proof {
            self.lines.lemma_emitted_are_ready();
            lemma_complete_lines_stable(before, chunk@);
            let kept = self.lines.emitted() as int;
            assert(lines_of(before + chunk@).take(kept) =~= lines_of(before).take(kept));
        }
        self.lines.feed(chunk);
        self.fed = self.fed + more;
        self.drain();
        if self.lines.found_binary() {
            Ok(ScanStep::Binary)
        } else {
            Ok(ScanStep::Continue)
        }
    }

    /// Ends the file: counts its last line, where no terminator closes it,
    /// and tells how the scan ended.
    pub fn finish(self) -> (outcome: FileOutcome)
        requires
            self.wf(),
        ensures
            is_outcome_of(outcome, self.consumed(), self.term(), self.policy()),
    {
        let mut scan = self;
        let ghost all = scan.lines.consumed();
        proof {
            scan.lines.lemma_emitted_are_ready();
        }
        scan.lines.close();
        scan.drain();
        proof {
            scan.lines.lemma_emitted_are_ready();
            assert(lines_of(all).take(lines_of(all).len() as int) =~= lines_of(all));
        }
        if scan.lines.found_binary() {
            FileOutcome::Binary
        } else {
            FileOutcome::Count(scan.hits)
        }
    }
}

/// Scans `content` as the whole of one file.
pub fn scan_content(term: &SearchTerm, policy: CountPolicy, content: &[u8]) -> (outcome:
    FileOutcome)
    ensures
        is_outcome_of(outcome, content@, term@, policy),
        outcome.count_spec() == reported_count(content@, term@, policy),
{
    let mut scan = FileScan::new(term, policy);
    let size: usize = content.len();
    let fed = scan.feed(content);
    proof {
        assert(content@.len() == size);
        assert(fed is Ok);
        assert(Seq::<u8>::empty() + content@ =~= content@);
    }
    scan.finish()
}

} // verus!
