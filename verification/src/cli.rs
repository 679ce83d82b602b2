//! What the command line asks for.
//!
//! The arguments are the program's name, the search term and any number of
//! root paths, each as the bytes that the system handed over. Without a root
//! the search starts in the current directory. A missing or unusable term
//! ends the run with exit code 1; a run that was carried out ends with exit
//! code 0, whatever diagnostics it gave.

use crate::term::{valid_term, SearchTerm, TermError, LINE_TERMINATOR};
use vstd::prelude::*;
use vstd::string::StringExecFns;
use vstd::string::StringSliceAdditionalSpecFns;
use vstd::utf8::valid_utf8;

verus! {

/// The exit code of a run that was carried out.
pub const EXIT_SUCCESS: i32 = 0;

/// The exit code of a run that could not start.
pub const EXIT_FAILURE: i32 = 1;

/// Why a run could not start.
#[derive(Clone, Copy, Debug, PartialEq, Eq, Structural)]
pub enum CliError {
    /// No search term was given.
    Usage,
    /// The search term is not text: its bytes are not valid UTF-8.
    NotText,
    /// The search term cannot be searched for.
    Term(TermError),
}

/// What a run is to do: the term to search for and the roots to search
/// under.
#[derive(Debug)]
pub struct Invocation {
    pub term: SearchTerm,
    pub roots: Vec<Vec<u8>>,
}

/// The root of a search for which no root was given: `./`.
pub open spec fn default_root() -> Seq<u8> {
    seq![0x2Eu8, 0x2Fu8]
}

/// The roots that the arguments name: those behind the term, or the current
/// directory where there is none.
pub open spec fn roots_of(args: Seq<Vec<u8>>) -> Seq<Seq<u8>> {
    if args.len() <= 2 {
        seq![default_root()]
    } else {
        Seq::new((args.len() - 2) as nat, |i: int| args[i + 2]@)
    }
}

/// The error of `grep::cli::pattern_from_bytes`.
#[verifier::external_type_specification]
#[verifier::external_body]
pub struct ExInvalidPatternError(grep::cli::InvalidPatternError);

/// Reads `bytes` as the text of a pattern, by `grep::cli::pattern_from_bytes`.
/// That function hands the bytes back as a string slice where they are valid
/// UTF-8, and fails otherwise; nothing of this is proved here.
#[verifier::external_body]
fn pattern_text(bytes: &[u8]) -> (r: Result<&str, grep::cli::InvalidPatternError>)
    ensures
        r is Ok <==> valid_utf8(bytes@),
        r matches Ok(text) ==> text.spec_bytes() == bytes@,
{
    grep::cli::pattern_from_bytes(bytes)
}

/// Reads the arguments of a run; the first is the program's name.
pub fn parse_args(args: &Vec<Vec<u8>>) -> (r: Result<Invocation, CliError>)
    ensures
        match r {
            Ok(run) => {
                &&& args@.len() >= 2
                &&& valid_utf8(args@[1]@)
                &&& valid_term(args@[1]@)
                &&& run.term@ == args@[1]@
                &&& run.roots@.len() == roots_of(args@).len()
                &&& forall|i: int|
                    0 <= i < run.roots@.len() ==> (#[trigger] run.roots@[i])@ == roots_of(args@)[i]
            },
            Err(CliError::Usage) => args@.len() < 2,
            Err(CliError::NotText) => args@.len() >= 2 && !valid_utf8(args@[1]@),
            Err(CliError::Term(TermError::Empty)) => args@.len() >= 2 && args@[1]@.len() == 0,
            Err(CliError::Term(TermError::ContainsLineTerminator)) => {
                &&& args@.len() >= 2
                &&& valid_utf8(args@[1]@)
                &&& args@[1]@.len() > 0
                &&& args@[1]@.contains(LINE_TERMINATOR)
            },
        },
{
    if args.len() < 2 {
        return Err(CliError::Usage);
    }
    let text = match pattern_text(args[1].as_slice()) {
        Ok(text) => text,
        Err(_) => {
            return Err(CliError::NotText);
        },
    };
    let term = match SearchTerm::new(text.as_bytes()) {
        Ok(term) => term,
        Err(e) => {
            return Err(CliError::Term(e));
        },
    };
    let mut roots: Vec<Vec<u8>> = Vec::new();
    if args.len() == 2 {
        let mut here: Vec<u8> = Vec::new();
        here.push(0x2E);
        here.push(0x2F);
        assert(here@ =~= default_root());
        roots.push(here);
    } else {
        let mut i: usize = 2;
        while i < args.len()
            invariant
                2 <= i <= args.len(),
                roots@.len() == i - 2,
                forall|j: int| 0 <= j < roots@.len() ==> (#[trigger] roots@[j])@ == args@[j + 2]@,
            decreases args.len() - i,
        {
            roots.push(vstd::slice::slice_to_vec(args[i].as_slice()));
            i += 1;
        }
    }
    Ok(Invocation { term, roots })
}

/// The line that tells how the program is called.
pub fn usage() -> (text: String)
    ensures
        text@ == "Usage: simplegrep <pattern> [<path> ...]"@,
{
    String::from_str("Usage: simplegrep <pattern> [<path> ...]")
}

/// The one line that is printed when a run cannot start.
pub fn error_message(error: CliError) -> (text: String)
    ensures
        text@ == match error {
            CliError::Usage => "Usage: simplegrep <pattern> [<path> ...]"@,
            CliError::NotText => "the search term is not valid UTF-8"@,
            CliError::Term(TermError::Empty) => "the search term is empty"@,
            CliError::Term(TermError::ContainsLineTerminator) =>
                "the search term holds a line terminator"@,
        },
{
    match error {
        CliError::Usage => usage(),
        CliError::NotText => String::from_str("the search term is not valid UTF-8"),
        CliError::Term(TermError::Empty) => String::from_str("the search term is empty"),
        CliError::Term(TermError::ContainsLineTerminator) => String::from_str(
            "the search term holds a line terminator",
        ),
    }
}

/// The exit code of a run: failure where it could not start, success
/// otherwise.
pub fn exit_code(started: &Result<Invocation, CliError>) -> (code: i32)
    ensures
        code == if started is Ok {
            EXIT_SUCCESS
        } else {
            EXIT_FAILURE
        },
{
    match started {
        Ok(_) => EXIT_SUCCESS,
        Err(_) => EXIT_FAILURE,
    }
}

} // verus!
