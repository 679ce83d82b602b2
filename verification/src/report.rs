//! The counts of a search, file by file.
//!
//! The report lists the files in which something was counted, in the order
//! in which they were found. A file without a count, a binary file and a file
//! that could not be read are left out. No path is listed twice.

use crate::scan::FileOutcome;
use vstd::hash_set::StringHashSet;
use vstd::prelude::*;

verus! {

/// One line of the report: a path and its count.
#[derive(Clone, Debug, PartialEq, Eq)]
pub struct FileCount {
    pub path: String,
    pub count: u64,
}

/// What the scan of one file gave: its path, its count, and the error in
/// case that the file could not be read to its end.
#[derive(Clone, Debug, PartialEq, Eq)]
pub struct ScanResult {
    pub path: String,
    pub count: u64,
    pub error: Option<String>,
}

impl ScanResult {
    /// The result for a file that was read to its end.
    pub fn scanned(path: String, outcome: FileOutcome) -> (r: ScanResult)
        ensures
            r.path == path,
            r.count == outcome.count_spec(),
            r.error is None,
    {
        ScanResult { path, count: outcome.count(), error: None }
    }

    /// The result for a file that could not be opened or read.
    pub fn failed(path: String, error: String) -> (r: ScanResult)
        ensures
            r.path == path,
            r.count == 0,
            r.error == Some(error),
    {
        ScanResult { path, count: 0, error: Some(error) }
    }
}

/// What became of a result that was handed to the report.
#[derive(Clone, Copy, Debug, PartialEq, Eq, Structural)]
pub enum Recorded {
    /// The file was added to the report.
    Listed,
    /// The file was read and nothing was counted in it.
    Omitted,
    /// The path is in the report already; the report keeps its first count.
    Duplicate,
    /// The file could not be read.
    Failed,
}

/// The path stands in one of the entries.
pub open spec fn is_listed(entries: Seq<(Seq<char>, nat)>, path: Seq<char>) -> bool {
    exists|i: int| 0 <= i < entries.len() && (#[trigger] entries[i]).0 == path
}

/// Every count is at least 1 and no path stands twice.
pub open spec fn is_report(entries: Seq<(Seq<char>, nat)>) -> bool {
    &&& forall|i: int| 0 <= i < entries.len() ==> (#[trigger] entries[i]).1 >= 1
    &&& forall|i: int, j: int|
        0 <= i < j < entries.len() ==> (#[trigger] entries[i]).0 != (#[trigger] entries[j]).0
}

/// What becomes of a result with the given path and count, failed or not,
/// that is handed to a report of the given entries.
pub open spec fn recorded_as(
    entries: Seq<(Seq<char>, nat)>,
    path: Seq<char>,
    count: nat,
    failed: bool,
) -> Recorded {
    if failed {
        Recorded::Failed
    } else if count == 0 {
        Recorded::Omitted
    } else if is_listed(entries, path) {
        Recorded::Duplicate
    } else {
        Recorded::Listed
    }
}

/// The entries after such a result was handed in: it is added at the end
/// where it is listed, and changes nothing otherwise.
pub open spec fn entries_after(
    entries: Seq<(Seq<char>, nat)>,
    path: Seq<char>,
    count: nat,
    failed: bool,
) -> Seq<(Seq<char>, nat)> {
    if recorded_as(entries, path, count, failed) == Recorded::Listed {
        entries.push((path, count))
    } else {
        entries
    }
}

/// Handing in a result keeps a report a report.
pub proof fn lemma_entries_after_is_report(
    entries: Seq<(Seq<char>, nat)>,
    path: Seq<char>,
    count: nat,
    failed: bool,
)
    requires
        is_report(entries),
    ensures
        is_report(entries_after(entries, path, count, failed)),
{
    let after = entries_after(entries, path, count, failed);
    if recorded_as(entries, path, count, failed) == Recorded::Listed {
        assert forall|i: int, j: int| 0 <= i < j < after.len() implies (#[trigger] after[i]).0 != (
        #[trigger] after[j]).0 by {
            if j == entries.len() {
                assert(after[i] == entries[i]);
            } else {
                assert(after[i] == entries[i] && after[j] == entries[j]);
            }
        }
    }
}

/// The per-file counts of a search, in the order of discovery.
pub struct MatchCount {
    entries: Vec<FileCount>,
    listed: StringHashSet,
}

impl View for MatchCount {
    type V = Seq<(Seq<char>, nat)>;

    /// The entries as pairs of path and count.
    closed spec fn view(&self) -> Seq<(Seq<char>, nat)> {
        Seq::new(
            self.entries@.len(),
            |i: int| (self.entries@[i].path@, self.entries@[i].count as nat),
        )
    }
}

impl MatchCount {
    /// The report is consistent: it is a report, and it knows its paths.
    pub closed spec fn wf(&self) -> bool {
        &&& is_report(self@)
        &&& forall|path: Seq<char>| self.listed@.contains(path) <==> is_listed(self@, path)
    }

    /// In a consistent report every count is at least 1 and no path stands
    /// twice.
    pub proof fn lemma_is_report(&self)
        requires
            self.wf(),
        ensures
            is_report(self@),
    {
    }

    /// The empty report.
    pub fn new() -> (report: MatchCount)
        ensures
            report.wf(),
            report@ == Seq::<(Seq<char>, nat)>::empty(),
    {
        let report = MatchCount { entries: Vec::new(), listed: StringHashSet::new() };
        assert(report@ =~= Seq::<(Seq<char>, nat)>::empty());
        report
    }

    /// Takes in the result of one file.
    pub fn record(&mut self, result: ScanResult) -> (r: Recorded)
        requires
            old(self).wf(),
        ensures
            final(self).wf(),
            r == recorded_as(old(self)@, result.path@, result.count as nat, result.error is Some),
            final(self)@ == entries_after(
                old(self)@,
                result.path@,
                result.count as nat,
                result.error is Some,
            ),
    {
        if result.error.is_some() {
            return Recorded::Failed;
        }
        if result.count == 0 {
            return Recorded::Omitted;
        }
        if self.listed.contains(result.path.as_str()) {
            return Recorded::Duplicate;
        }
        let ghost before = self@;
        let ghost path = result.path@;
        let ghost count = result.count as nat;
        self.listed.insert(result.path.clone());
        self.entries.push(FileCount { path: result.path, count: result.count });
        proof {
            assert(self@ =~= before.push((path, count)));
            lemma_entries_after_is_report(before, path, count, false);
            assert forall|p: Seq<char>| self.listed@.contains(p) <==> is_listed(self@, p) by {
                if is_listed(before, p) {
                    let i = choose|i: int| 0 <= i < before.len() && (#[trigger] before[i]).0 == p;
                    assert(self@[i].0 == p);
                }
                if p == path {
                    assert(self@[before.len() as int].0 == p);
                }
                if is_listed(self@, p) && p != path {
                    let i = choose|i: int| 0 <= i < self@.len() && (#[trigger] self@[i]).0 == p;
                    assert(before[i].0 == p);
                }
            }
        }
        Recorded::Listed
    }

    /// The number of files in the report.
    pub fn len(&self) -> (n: usize)
        ensures
            n == self@.len(),
    {
        self.entries.len()
    }

    /// The entry at `index`, where there is one.
    pub fn get(&self, index: usize) -> (entry: Option<&FileCount>)
        ensures
            match entry {
                Some(e) => index < self@.len() && (e.path@, e.count as nat) == self@[index as int],
                None => index >= self@.len(),
            },
    {
        if index < self.entries.len() {
            Some(&self.entries[index])
        } else {
            None
        }
    }

    /// The count of the file at `path`, where the report lists it.
    pub fn count_for(&self, path: &str) -> (count: Option<u64>)
        ensures
            match count {
                Some(n) => exists|i: int|
                    0 <= i < self@.len() && #[trigger] self@[i] == (path@, n as nat),
                None => !is_listed(self@, path@),
            },
    {
        let wanted = path.to_owned();
        let mut i: usize = 0;
        while i < self.entries.len()
            invariant
                i <= self.entries.len(),
                wanted@ == path@,
                forall|j: int| 0 <= j < i ==> (#[trigger] self@[j]).0 != path@,
            decreases self.entries.len() - i,
        {
            if self.entries[i].path == wanted {
                assert(self@[i as int] == (path@, self.entries[i as int].count as nat));
                return Some(self.entries[i].count);
            }
            assert(self@[i as int].0 == self.entries[i as int].path@);
            i += 1;
        }
        None
    }
}

} // verus!
