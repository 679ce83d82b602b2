//! One whole search.
//!
//! [`Search`] keeps what a run has found so far. The caller walks the tree
//! and reads the files; the search decides, event by event, what is scanned
//! and what goes into the report. [`search`] runs a search over a tree that is
//! at hand in memory.
//!
//! A failure to reach an entry or to read a file becomes a diagnostic and
//! never ends the run.

use crate::lines::is_binary;
use crate::report::{
    entries_after, is_listed, is_report, recorded_as, MatchCount, Recorded, ScanResult,
};
use crate::scan::{
    content_hits, lemma_counted_iff_standalone, reported_count, scan_content, CountPolicy, FileScan,
};
use crate::term::{valid_term, SearchTerm};
use crate::walk::{
    seen_after, step_for, EntryKind, FileEnumerator, FileTask, WalkEvent, WalkStep,
};
use crate::word::has_word;
use vstd::prelude::*;
use vstd::string::StringExecFns;

verus! {

/// What a search has found so far.
pub struct SearchState {
    /// The paths of the files that were handed on for scanning.
    pub seen: Set<Seq<char>>,
    /// The report: paths and counts, in the order of discovery.
    pub counts: Seq<(Seq<char>, nat)>,
    /// The diagnostics, in the order in which they arose.
    pub diagnostics: Seq<Seq<char>>,
}

/// The state in which every search starts.
pub open spec fn initial_state() -> SearchState {
    SearchState { seen: Set::empty(), counts: Seq::empty(), diagnostics: Seq::empty() }
}

/// The diagnostic for a file that could not be read: its path, a colon and a
/// space, and the error.
pub open spec fn read_diagnostic(path: Seq<char>, error: Seq<char>) -> Seq<char> {
    path + ": "@ + error
}

/// The state after `event` of the walk.
pub open spec fn state_after_event(state: SearchState, event: WalkEvent) -> SearchState {
    SearchState {
        seen: seen_after(state.seen, event),
        counts: state.counts,
        diagnostics: match event {
            WalkEvent::Failure { message } => state.diagnostics.push(message@),
            _ => state.diagnostics,
        },
    }
}

/// The state after the result of one file was taken in.
pub open spec fn state_after_result(state: SearchState, result: ScanResult) -> SearchState {
    SearchState {
        seen: state.seen,
        counts: entries_after(
            state.counts,
            result.path@,
            result.count as nat,
            result.error is Some,
        ),
        diagnostics: match result.error {
            Some(error) => state.diagnostics.push(read_diagnostic(result.path@, error@)),
            None => state.diagnostics,
        },
    }
}

/// One entry of a tree that is at hand in memory.
#[derive(Clone, Debug, PartialEq, Eq)]
pub enum TreeEntry {
    /// A regular file and its content.
    File { path: String, content: Vec<u8> },
    /// A regular file that cannot be opened or read, with the error.
    Unreadable { path: String, error: String },
    /// A directory.
    Directory { path: String },
    /// Anything else.
    Other { path: String },
    /// An entry that the walk could not reach, with the reason.
    Failure { message: String },
}

/// The path of a regular file, readable or not.
pub open spec fn file_path(entry: TreeEntry) -> Option<Seq<char>> {
    match entry {
        TreeEntry::File { path, content } => Some(path@),
        TreeEntry::Unreadable { path, error } => Some(path@),
        _ => None,
    }
}

/// The state after one entry of a tree: a regular file that was not met
/// before is scanned and goes into the report with its count, or into the
/// diagnostics where it cannot be read; a failure of the walk goes into the
/// diagnostics; everything else changes nothing.
pub open spec fn state_after_entry(
    state: SearchState,
    term: Seq<u8>,
    policy: CountPolicy,
    entry: TreeEntry,
) -> SearchState {
    match entry {
        TreeEntry::File { path, content } => if state.seen.contains(path@) {
            state
        } else {
            SearchState {
                seen: state.seen.insert(path@),
                counts: entries_after(
                    state.counts,
                    path@,
                    reported_count(content@, term, policy),
                    false,
                ),
                diagnostics: state.diagnostics,
            }
        },
        TreeEntry::Unreadable { path, error } => if state.seen.contains(path@) {
            state
        } else {
            SearchState {
                seen: state.seen.insert(path@),
                counts: state.counts,
                diagnostics: state.diagnostics.push(read_diagnostic(path@, error@)),
            }
        },
        TreeEntry::Directory { path } => state,
        TreeEntry::Other { path } => state,
        TreeEntry::Failure { message } => SearchState {
            seen: state.seen,
            counts: state.counts,
            diagnostics: state.diagnostics.push(message@),
        },
    }
}

/// The state after the entries of `tree`, in their order.
pub open spec fn state_after_tree(
    state: SearchState,
    term: Seq<u8>,
    policy: CountPolicy,
    tree: Seq<TreeEntry>,
) -> SearchState
    decreases tree.len(),
{
    if tree.len() == 0 {
        state
    } else {
        state_after_entry(
            state_after_tree(state, term, policy, tree.drop_last()),
            term,
            policy,
            tree.last(),
        )
    }
}

/// A search in progress.
pub struct Search {
    term: SearchTerm,
    policy: CountPolicy,
    files: FileEnumerator,
    counts: MatchCount,
    diagnostics: Vec<String>,
}

impl View for Search {
    type V = SearchState;

    closed spec fn view(&self) -> SearchState {
        SearchState {
            seen: self.files@,
            counts: self.counts@,
            diagnostics: Seq::new(self.diagnostics@.len(), |i: int| self.diagnostics@[i]@),
        }
    }
}

impl Search {
    /// The term that is searched for.
    pub closed spec fn term_bytes(&self) -> Seq<u8> {
        self.term@
    }

    /// The policy by which lines are counted.
    pub closed spec fn count_policy(&self) -> CountPolicy {
        self.policy
    }

    /// The search is consistent.
    pub closed spec fn wf(&self) -> bool {
        self.counts.wf()
    }

    /// In a consistent search every count of the report is at least 1 and no
    /// path stands in it twice.
    pub proof fn lemma_counts_are_report(&self)
        requires
            self.wf(),
        ensures
            is_report(self@.counts),
    {
        self.counts.lemma_is_report();
    }

    /// A search for `term` that has found nothing yet.
    pub fn new(term: SearchTerm, policy: CountPolicy) -> (search: Search)
        ensures
            search.wf(),
            search@ == initial_state(),
            search.term_bytes() == term@,
            search.count_policy() == policy,
    {
        let search = Search {
            term,
            policy,
            files: FileEnumerator::new(),
            counts: MatchCount::new(),
            diagnostics: Vec::new(),
        };
        assert(search@.diagnostics =~= Seq::<Seq<char>>::empty());
        search
    }

    /// The term that is searched for.
    pub fn term(&self) -> (term: &SearchTerm)
        ensures
            term@ == self.term_bytes(),
    {
        &self.term
    }

    /// The policy by which lines are counted.
    pub fn policy(&self) -> (policy: CountPolicy)
        ensures
            policy == self.count_policy(),
    {
        self.policy
    }

    /// A scan, for this search's term and policy, of a file that is read in
    /// chunks.
    pub fn begin_scan(&self) -> (scan: FileScan<'_>)
        ensures
            scan.wf(),
            scan.consumed() == Seq::<u8>::empty(),
            scan.term() == self.term_bytes(),
            scan.policy() == self.count_policy(),
    {
        FileScan::new(&self.term, self.policy)
    }

    /// Decides what is to be done about an event of the walk. A regular file
    /// is to be scanned where its path was not met before; a failure is to be
    /// reported, and is kept among the diagnostics.
    pub fn observe(&mut self, event: WalkEvent) -> (step: WalkStep)
        requires
            old(self).wf(),
        ensures
            final(self).wf(),
            step == step_for(old(self)@.seen, event),
            final(self)@ == state_after_event(old(self)@, event),
            final(self).term_bytes() == old(self).term_bytes(),
            final(self).count_policy() == old(self).count_policy(),
    {
        let ghost before = self@.diagnostics;
        let step = self.files.observe(event);
        match &step {
            WalkStep::Diagnose { message } => {
                self.diagnostics.push(message.clone());
                proof {
                    assert(self@.diagnostics =~= before.push(message@));
                }
            },
            _ => {
                proof {
                    assert(self@.diagnostics =~= before);
                }
            },
        }
        step
    }

    /// Takes in the result of one file: its count goes into the report, its
    /// error into the diagnostics.
    pub fn record(&mut self, result: ScanResult) -> (r: Recorded)
        requires
            old(self).wf(),
        ensures
            final(self).wf(),
            r == recorded_as(
                old(self)@.counts,
                result.path@,
                result.count as nat,
                result.error is Some,
            ),
            final(self)@ == state_after_result(old(self)@, result),
            final(self).term_bytes() == old(self).term_bytes(),
            final(self).count_policy() == old(self).count_policy(),
    {
        let ghost before = self@.diagnostics;
        match &result.error {
            Some(error) => {
                let mut line = result.path.clone();
                line.append(": ");
                line.append(error.as_str());
                self.diagnostics.push(line);
                proof {
                    assert(self@.diagnostics =~= before.push(
                        read_diagnostic(result.path@, error@),
                    ));
                }
            },
            None => {
                proof {
                    assert(self@.diagnostics =~= before);
                }
            },
        }
        self.counts.record(result)
    }

    /// The report so far.
    pub fn counts(&self) -> (counts: &MatchCount)
        ensures
            counts@ == self@.counts,
            self.wf() ==> counts.wf(),
    {
        &self.counts
    }

    /// The diagnostics so far.
    pub fn diagnostics(&self) -> (lines: &Vec<String>)
        ensures
            lines@.len() == self@.diagnostics.len(),
            forall|i: int| 0 <= i < lines@.len() ==> (#[trigger] lines@[i])@ == self@.diagnostics[i],
    {
        &self.diagnostics
    }

    /// Deals with one entry of a tree that is at hand in memory.
    pub fn visit(&mut self, entry: &TreeEntry)
        requires
            old(self).wf(),
        ensures
            final(self).wf(),
            final(self)@ == state_after_entry(
                old(self)@,
                old(self).term_bytes(),
                old(self).count_policy(),
                *entry,
            ),
            final(self).term_bytes() == old(self).term_bytes(),
            final(self).count_policy() == old(self).count_policy(),
    {
        match entry {
            TreeEntry::File { path, content } => {
                let task = FileTask { path: path.clone(), kind: EntryKind::File };
                match self.observe(WalkEvent::Entry(task)) {
                    WalkStep::Scan(task) => {
                        let outcome = scan_content(&self.term, self.policy, content.as_slice());
                        self.record(ScanResult::scanned(task.path, outcome));
                    },
                    _ => {},
                }
            },
            TreeEntry::Unreadable { path, error } => {
                let task = FileTask { path: path.clone(), kind: EntryKind::File };
                match self.observe(WalkEvent::Entry(task)) {
                    WalkStep::Scan(task) => {
                        self.record(ScanResult::failed(task.path, error.clone()));
                    },
                    _ => {},
                }
            },
            TreeEntry::Directory { path } => {
                let task = FileTask { path: path.clone(), kind: EntryKind::Directory };
                self.observe(WalkEvent::Entry(task));
            },
            TreeEntry::Other { path } => {
                let task = FileTask { path: path.clone(), kind: EntryKind::Other };
                self.observe(WalkEvent::Entry(task));
            },
            TreeEntry::Failure { message } => {
                self.observe(WalkEvent::Failure { message: message.clone() });
            },
        }
        proof {
            let after = state_after_entry(
                old(self)@,
                old(self).term_bytes(),
                old(self).count_policy(),
                *entry,
            );
            assert(self@.seen =~= after.seen);
            assert(self@.counts =~= after.counts);
            assert(self@.diagnostics =~= after.diagnostics);
        }
    }
}

/// Searches the files of `tree` for `term`: the report lists, in the order
/// of the tree, each text file with a count of at least 1.
pub fn search(term: SearchTerm, policy: CountPolicy, tree: &Vec<TreeEntry>) -> (found: Search)
    ensures
        found.wf(),
        found@ == state_after_tree(initial_state(), term@, policy, tree@),
        found.term_bytes() == term@,
        found.count_policy() == policy,
{
    let ghost wanted = term@;
    let mut found = Search::new(term, policy);
    let mut i: usize = 0;
    while i < tree.len()
        invariant
            i <= tree.len(),
            found.wf(),
            found.term_bytes() == wanted,
            found.count_policy() == policy,
            found@ == state_after_tree(initial_state(), wanted, policy, tree@.take(i as int)),
        decreases tree.len() - i,
    {
        proof {
            assert(tree@.take(i + 1).drop_last() =~= tree@.take(i as int));
            assert(tree@.take(i + 1).last() == tree@[i as int]);
        }
        found.visit(&tree[i]);
        i += 1;
    }
    proof {
        assert(tree@.take(tree@.len() as int) =~= tree@);
    }
    found
}

/// Dealing with an entry forgets no path.
pub proof fn lemma_entry_keeps_seen(
    state: SearchState,
    term: Seq<u8>,
    policy: CountPolicy,
    entry: TreeEntry,
)
    ensures
        state.seen.subset_of(state_after_entry(state, term, policy, entry).seen),
        file_path(entry) matches Some(path) ==> state_after_entry(
            state,
            term,
            policy,
            entry,
        ).seen.contains(path),
{
}

/// After a tree was dealt with, the paths met before and the paths of all
/// its regular files are known.
pub proof fn lemma_tree_files_are_seen(
    state: SearchState,
    term: Seq<u8>,
    policy: CountPolicy,
    tree: Seq<TreeEntry>,
)
    ensures
        state.seen.subset_of(state_after_tree(state, term, policy, tree).seen),
        forall|i: int|
            0 <= i < tree.len() ==> (file_path(#[trigger] tree[i]) matches Some(path)
                ==> state_after_tree(state, term, policy, tree).seen.contains(path)),
    decreases tree.len(),
{
    if tree.len() > 0 {
        let front = tree.drop_last();
        let middle = state_after_tree(state, term, policy, front);
        lemma_tree_files_are_seen(state, term, policy, front);
        lemma_entry_keeps_seen(middle, term, policy, tree.last());
        let after = state_after_tree(state, term, policy, tree);
        assert forall|i: int| 0 <= i < tree.len() implies (file_path(
            #[trigger] tree[i],
        ) matches Some(path) ==> after.seen.contains(path)) by {
            if i < tree.len() - 1 {
                assert(front[i] == tree[i]);
            }
        }
    }
}

/// A tree whose regular files were all met before adds no file to the report
/// and changes no count.
pub proof fn lemma_known_tree_changes_no_count(
    state: SearchState,
    term: Seq<u8>,
    policy: CountPolicy,
    tree: Seq<TreeEntry>,
)
    requires
        forall|i: int|
            0 <= i < tree.len() ==> (file_path(#[trigger] tree[i]) matches Some(path)
                ==> state.seen.contains(path)),
    ensures
        state_after_tree(state, term, policy, tree).counts == state.counts,
        state_after_tree(state, term, policy, tree).seen == state.seen,
    decreases tree.len(),
{
    if tree.len() > 0 {
        let front = tree.drop_last();
        assert forall|i: int| 0 <= i < front.len() implies (file_path(
            #[trigger] front[i],
        ) matches Some(path) ==> state.seen.contains(path)) by {
            assert(front[i] == tree[i]);
        }
        lemma_known_tree_changes_no_count(state, term, policy, front);
        assert(tree.last() == tree[tree.len() - 1]);
    }
}

/// Searching a tree a second time, unchanged, leaves the report as the first
/// search made it: the same files with the same counts in the same order.
pub proof fn lemma_second_search_changes_nothing(
    state: SearchState,
    term: Seq<u8>,
    policy: CountPolicy,
    tree: Seq<TreeEntry>,
)
    ensures
        state_after_tree(
            state_after_tree(state, term, policy, tree),
            term,
            policy,
            tree,
        ).counts == state_after_tree(state, term, policy, tree).counts,
{
    lemma_tree_files_are_seen(state, term, policy, tree);
    lemma_known_tree_changes_no_count(
        state_after_tree(state, term, policy, tree),
        term,
        policy,
        tree,
    );
}

/// Two searches for the same term, under the same policy, over trees that
/// hold the same entries give the same report and the same diagnostics.
pub proof fn lemma_search_is_repeatable(
    term: Seq<u8>,
    policy: CountPolicy,
    first: Seq<TreeEntry>,
    second: Seq<TreeEntry>,
)
    requires
        first =~= second,
    ensures
        state_after_tree(initial_state(), term, policy, first) == state_after_tree(
            initial_state(),
            term,
            policy,
            second,
        ),
{
}

/// A regular file that is met for the first time stands in the report
/// afterwards exactly when it is text and the term stands in it as a whole
/// word; its count is then that of its lines.
pub proof fn lemma_file_is_listed_iff_standalone(
    state: SearchState,
    term: Seq<u8>,
    policy: CountPolicy,
    path: String,
    content: Vec<u8>,
)
    requires
        valid_term(term),
        !state.seen.contains(path@),
        !is_listed(state.counts, path@),
    ensures
        ({
            let after = state_after_entry(state, term, policy, TreeEntry::File { path, content });
            &&& is_listed(after.counts, path@) <==> !is_binary(content@) && has_word(
                content@,
                term,
            )
            &&& is_listed(after.counts, path@) ==> after.counts.last() == (
                path@,
                content_hits(content@, term, policy),
            )
        }),
{
    let after = state_after_entry(state, term, policy, TreeEntry::File { path, content });
    lemma_counted_iff_standalone(content@, term, policy);
    if reported_count(content@, term, policy) >= 1 {
        assert(after.counts.last().0 == path@);
    } else {
        assert(after.counts == state.counts);
    }
}

} // verus!
