//! Whole-word matching of a literal term inside one line.
//!
//! A term stands as a whole word where it occurs byte for byte and is bounded
//! on each side by the end of the line or by a byte that is no word byte.
//! Word bytes are the ASCII letters, the ASCII digits and the underscore. The
//! classification is by single bytes: every byte of a multi-byte character
//! lies outside ASCII and is therefore never a word byte.

use crate::term::SearchTerm;
use vstd::prelude::*;

verus! {

/// Word bytes: `0-9`, `A-Z`, `a-z` and `_`.
pub open spec fn is_word_byte(b: u8) -> bool {
    (0x30 <= b <= 0x39) || (0x41 <= b <= 0x5A) || (0x61 <= b <= 0x7A) || b == 0x5F
}

/// The bytes of `term` stand in `line` from index `at` on.
pub open spec fn occurs_at(line: Seq<u8>, term: Seq<u8>, at: int) -> bool {
    &&& 0 <= at
    &&& at + term.len() <= line.len()
    &&& line.subrange(at, at + term.len()) == term
}

/// `term` stands in `line` at index `at` as a whole word: it occurs there,
/// nothing or a non-word byte comes before it, and nothing or a non-word byte
/// comes after it. Two occurrences may share the one byte between them.
pub open spec fn word_at(line: Seq<u8>, term: Seq<u8>, at: int) -> bool {
    &&& occurs_at(line, term, at)
    &&& (at == 0 || !is_word_byte(line[at - 1]))
    &&& (at + term.len() == line.len() || !is_word_byte(line[at + term.len()]))
}

/// `term` stands somewhere in `line` as a whole word.
pub open spec fn has_word(line: Seq<u8>, term: Seq<u8>) -> bool {
    exists|at: int| word_at(line, term, at)
}

/// The number of whole-word occurrences of `term` in `line` from index `from`
/// on that do not overlap, taken from the left: after an occurrence the next
/// one is looked for behind its last byte.
pub open spec fn word_count_from(line: Seq<u8>, term: Seq<u8>, from: int) -> nat
    decreases line.len() - from,
{
    if from < 0 || term.len() == 0 || from + term.len() > line.len() {
        0
    } else if word_at(line, term, from) {
        1 + word_count_from(line, term, from + term.len())
    } else {
        word_count_from(line, term, from + 1)
    }
}

/// The number of non-overlapping whole-word occurrences of `term` in `line`.
pub open spec fn word_count(line: Seq<u8>, term: Seq<u8>) -> nat {
    word_count_from(line, term, 0)
}

/// Where no whole word starts in `[from, to)`, counting from `from` is
/// counting from `to`.
pub proof fn lemma_count_skips_gap(line: Seq<u8>, term: Seq<u8>, from: int, to: int)
    requires
        0 <= from <= to,
        term.len() > 0,
        to + term.len() <= line.len() || forall|j: int| to <= j ==> !word_at(line, term, j),
        forall|j: int| from <= j < to ==> !word_at(line, term, j),
    ensures
        word_count_from(line, term, from) == word_count_from(line, term, to),
    decreases line.len() - from,
{
    if from + term.len() > line.len() {
        lemma_count_zero_without_word(line, term, to);
    } else if from < to {
        lemma_count_skips_gap(line, term, from + 1, to);
    }
}

/// Where no whole word starts at or after `from`, the count from there is 0.
pub proof fn lemma_count_zero_without_word(line: Seq<u8>, term: Seq<u8>, from: int)
    requires
        forall|j: int| from <= j ==> !word_at(line, term, j),
    ensures
        word_count_from(line, term, from) == 0,
    decreases line.len() - from,
{
    if !(from < 0 || term.len() == 0 || from + term.len() > line.len()) {
        lemma_count_zero_without_word(line, term, from + 1);
    }
}

/// A whole word at or after `from` makes the count from there positive.
pub proof fn lemma_count_positive_with_word(line: Seq<u8>, term: Seq<u8>, from: int, at: int)
    requires
        0 <= from <= at,
        term.len() > 0,
        word_at(line, term, at),
    ensures
        word_count_from(line, term, from) >= 1,
    decreases at - from,
{
    if !word_at(line, term, from) {
        lemma_count_positive_with_word(line, term, from + 1, at);
    }
}

/// A positive count from `from` means that a whole word starts at or after
/// `from`.
pub proof fn lemma_count_positive_means_word(line: Seq<u8>, term: Seq<u8>, from: int)
    requires
        word_count_from(line, term, from) >= 1,
    ensures
        exists|at: int| from <= at && word_at(line, term, at),
    decreases line.len() - from,
{
    if !word_at(line, term, from) {
        lemma_count_positive_means_word(line, term, from + 1);
        let at = choose|at: int| from + 1 <= at && word_at(line, term, at);
        assert(from <= at && word_at(line, term, at));
    }
}

/// The count is positive exactly when the term stands in the line as a whole
/// word.
pub proof fn lemma_count_positive_iff_has_word(line: Seq<u8>, term: Seq<u8>)
    requires
        term.len() > 0,
    ensures
        word_count(line, term) >= 1 <==> has_word(line, term),
{
    if has_word(line, term) {
        let at = choose|at: int| word_at(line, term, at);
        lemma_count_positive_with_word(line, term, 0, at);
    }
    if word_count(line, term) >= 1 {
        lemma_count_positive_means_word(line, term, 0);
    }
}

/// Occurrences that do not overlap need a byte each: the count from `from` is
/// at most the number of bytes left.
pub proof fn lemma_count_bounded(line: Seq<u8>, term: Seq<u8>, from: int)
    requires
        0 <= from <= line.len(),
    ensures
        word_count_from(line, term, from) <= line.len() - from,
    decreases line.len() - from,
{
    if !(term.len() == 0 || from + term.len() > line.len()) {
        if word_at(line, term, from) {
            lemma_count_bounded(line, term, from + term.len());
        } else {
            lemma_count_bounded(line, term, from + 1);
        }
    }
}

/// Tells whether `b` is a word byte.
pub fn is_word(b: u8) -> (r: bool)
    ensures
        r == is_word_byte(b),
{
    (0x30 <= b && b <= 0x39) || (0x41 <= b && b <= 0x5A) || (0x61 <= b && b <= 0x7A) || b == 0x5F
}

/// Compares the bytes of `term` with those of `line` from `at` on.
fn occurs_here(term: &[u8], line: &[u8], at: usize) -> (r: bool)
    requires
        at + term@.len() <= line@.len(),
    ensures
        r == occurs_at(line@, term@, at as int),
{
    let mut k: usize = 0;
    while k < term.len()
        invariant
            k <= term.len(),
            at + term.len() <= line.len(),
            forall|j: int| 0 <= j < k ==> line@[at + j] == term@[j],
        decreases term.len() - k,
    {
        if line[at + k] != term[k] {
            assert(line@.subrange(at as int, at + term@.len())[k as int] == line@[at + k]);
            return false;
        }
        k += 1;
    }
    assert(line@.subrange(at as int, at + term@.len()) =~= term@);
    true
}

/// Tells whether `term` stands in `line` at index `at` as a whole word.
pub fn word_starts_at(term: &SearchTerm, line: &[u8], at: usize) -> (r: bool)
    ensures
        r == word_at(line@, term@, at as int),
{
    let bytes = term.as_bytes();
    if at > line.len() || bytes.len() > line.len() - at {
        return false;
    }
    let end: usize = at + bytes.len();
    if at > 0 && is_word(line[at - 1]) {
        return false;
    }
    if end < line.len() && is_word(line[end]) {
        return false;
    }
    occurs_here(bytes, line, at)
}

/// Finds the first index at or after `from` at which `term` stands in `line`
/// as a whole word.
pub fn find_word(term: &SearchTerm, line: &[u8], from: usize) -> (r: Option<usize>)
    ensures
        match r {
            Some(at) => {
                &&& from <= at
                &&& word_at(line@, term@, at as int)
                &&& forall|j: int| from <= j < at ==> !word_at(line@, term@, j)
            },
            None => forall|j: int| from <= j ==> !word_at(line@, term@, j),
        },
{
    let width: usize = term.len();
    if line.len() < width {
        return None;
    }
    let last: usize = line.len() - width;
    let mut at: usize = from;
    while at <= last
        invariant
            from <= at,
            width == term@.len(),
            width > 0,
            last == line.len() - width,
            forall|j: int| from <= j < at ==> !word_at(line@, term@, j),
        decreases last + 1 - at,
    {
        if word_starts_at(term, line, at) {
            return Some(at);
        }
        at += 1;
    }
    None
}

/// Tells whether `term` stands somewhere in `line` as a whole word.
pub fn line_matches(term: &SearchTerm, line: &[u8]) -> (r: bool)
    ensures
        r == has_word(line@, term@),
{
    match find_word(term, line, 0) {
        Some(_) => true,
        None => false,
    }
}

/// Counts the non-overlapping whole-word occurrences of `term` in `line`.
pub fn count_words(term: &SearchTerm, line: &[u8]) -> (n: usize)
    ensures
        n == word_count(line@, term@),
{
    let width: usize = term.len();
    let mut n: usize = 0;
    let mut from: usize = 0;
    loop
        invariant
            width == term@.len(),
            width > 0,
            from <= line.len(),
            n <= from,
            n + word_count_from(line@, term@, from as int) == word_count(line@, term@),
        decreases line.len() - from,
    {
        match find_word(term, line, from) {
            Some(at) => {
                proof {
                    lemma_count_skips_gap(line@, term@, from as int, at as int);
                }
                n += 1;
                from = at + width;
            },
            None => {
                proof {
                    lemma_count_zero_without_word(line@, term@, from as int);
                }
                return n;
            },
        }
    }
}

} // verus!
