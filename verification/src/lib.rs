//! A recursive whole-word search core.
//!
//! The crate counts, file by file, the lines (or the occurrences) in which a
//! literal term stands as a whole word. It works on plain values only: the
//! caller walks the directory tree and reads the files, and hands over
//! directory entries and chunks of bytes.
//!
//! * [`term`]: the search term and its validation.
//! * [`word`]: whole-word matching inside one line.
//! * [`lines`]: splitting a byte stream into lines, as a pull-based cursor.
//! * [`scan`]: the count for one file, streamed or in one piece.
//! * [`walk`]: which directory entries are handed on for scanning.
//! * [`report`]: the per-file counts, in the order of discovery.
//! * [`search`]: one whole run over a tree.
//! * [`cli`]: what the command line asks for, and the exit code.

pub mod term;
pub mod word;
pub mod lines;
pub mod scan;
pub mod walk;
pub mod report;
pub mod search;
pub mod cli;
