//! The search term: a literal, non-empty run of bytes that fits in one line.

use vstd::prelude::*;

verus! {

/// The byte that ends a line.
pub const LINE_TERMINATOR: u8 = 0x0A;

/// A term can be searched for when it is not empty and holds no line
/// terminator: such a term could never lie inside a line.
pub open spec fn valid_term(bytes: Seq<u8>) -> bool {
    bytes.len() > 0 && !bytes.contains(LINE_TERMINATOR)
}

/// Why a run of bytes was refused as a search term.
#[derive(Clone, Copy, Debug, PartialEq, Eq, Structural)]
pub enum TermError {
    /// The term holds no byte at all.
    Empty,
    /// The term holds a line terminator.
    ContainsLineTerminator,
}

/// A validated search term. It is matched literally, byte for byte, and is
/// never changed after it was made.
#[derive(Debug)]
pub struct SearchTerm {
    bytes: Vec<u8>,
}

impl View for SearchTerm {
    type V = Seq<u8>;

    closed spec fn view(&self) -> Seq<u8> {
        self.bytes@
    }
}

impl SearchTerm {
    #[verifier::type_invariant]
    spec fn well_formed(&self) -> bool {
        valid_term(self.bytes@)
    }

    /// Validates `bytes` as a search term.
    pub fn new(bytes: &[u8]) -> (r: Result<SearchTerm, TermError>)
        ensures
            match r {
                Ok(term) => valid_term(bytes@) && term@ == bytes@,
                Err(TermError::Empty) => bytes@.len() == 0,
                Err(TermError::ContainsLineTerminator) => bytes@.len() > 0 && bytes@.contains(
                    LINE_TERMINATOR,
                ),
            },
    {
        if bytes.len() == 0 {
            return Err(TermError::Empty);
        }
        let mut i: usize = 0;
        while i < bytes.len()
            invariant
                i <= bytes.len(),
                forall|j: int| 0 <= j < i ==> bytes@[j] != LINE_TERMINATOR,
            decreases bytes.len() - i,
        {
            if bytes[i] == LINE_TERMINATOR {
                return Err(TermError::ContainsLineTerminator);
            }
            i += 1;
        }
        Ok(SearchTerm { bytes: vstd::slice::slice_to_vec(bytes) })
    }

    /// The bytes of the term.
    pub fn as_bytes(&self) -> (bytes: &[u8])
        ensures
            bytes@ == self@,
            valid_term(bytes@),
    {
        proof {
            use_type_invariant(self);
        }
        self.bytes.as_slice()
    }

    /// The number of bytes in the term; never zero.
    pub fn len(&self) -> (n: usize)
        ensures
            n == self@.len(),
            n > 0,
    {
        proof {
            use_type_invariant(self);
        }
        self.bytes.len()
    }
}

} // verus!
