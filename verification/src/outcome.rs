//! The tagged result of a parse attempt.
use vstd::prelude::*;
use vstd::string::StringSliceAdditionalSpecFns;
use vstd::utf8::is_char_boundary;

verus! {

/// What an attempt to parse a value from the front of a text slice gave.
///
/// The same type serves the parser of a single value and the element
/// extractor built on it. They differ in what `consumed` counts from: the
/// start of the value for the former, the start of the slice for the latter.
#[derive(Debug)]
pub enum ParseOutcome {
    /// A value was recognised. `value` is its canonical text and `consumed`
    /// the number of bytes that the attempt took from the input.
    Success { value: String, consumed: usize },
    /// The input ended before a decision could be made. More input may turn
    /// this into a success or a failure.
    Incomplete,
    /// The input cannot match the grammar, whatever follows.
    Invalid { reason: String },
}

/// The mathematical value of a [`ParseOutcome`].
pub enum Parse {
    Success { value: Seq<char>, consumed: nat },
    Incomplete,
    Invalid { reason: Seq<char> },
}

impl View for ParseOutcome {
    type V = Parse;

    open spec fn view(&self) -> Parse {
        match self {
            ParseOutcome::Success { value, consumed } => Parse::Success {
                value: value@,
                consumed: *consumed as nat,
            },
            ParseOutcome::Incomplete => Parse::Incomplete,
            ParseOutcome::Invalid { reason } => Parse::Invalid { reason: reason@ },
        }
    }
}

impl Parse {
    /// A success takes at least one byte of `text`, no more than all of
    /// it, and ends between two characters.
    pub open spec fn fits(self, text: Seq<u8>) -> bool {
        self matches Parse::Success { consumed, .. } ==> 1 <= consumed <= text.len()
            && is_char_boundary(text, consumed as int)
    }
}

impl ParseOutcome {
    /// Tells whether a value was recognised.
    pub fn is_success(&self) -> (r: bool)
        ensures
            r == (self@ is Success),
    {
        match self {
            ParseOutcome::Success { .. } => true,
            _ => false,
        }
    }

    /// Tells whether more input is needed.
    pub fn is_incomplete(&self) -> (r: bool)
        ensures
            r == (self@ is Incomplete),
    {
        match self {
            ParseOutcome::Incomplete => true,
            _ => false,
        }
    }

    /// Tells whether the input was rejected.
    pub fn is_invalid(&self) -> (r: bool)
        ensures
            r == (self@ is Invalid),
    {
        match self {
            ParseOutcome::Invalid { .. } => true,
            _ => false,
        }
    }

    /// Tells whether this can be the outcome of parsing a value from the
    /// front of `text`: a success takes at least one byte, no more than all
    /// of `text`, and ends between two characters. Every other outcome fits
    /// any text.
    pub fn fits(&self, text: &str) -> (r: bool)
        ensures
            r == self@.fits(text.spec_bytes()),
    {
        match self {
            ParseOutcome::Success { consumed, .. } => 1 <= *consumed && *consumed
                <= text.as_bytes().len() && text.is_char_boundary(*consumed),
            _ => true,
        }
    }
}

} // verus!
