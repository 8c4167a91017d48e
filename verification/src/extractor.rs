//! The element extractor: one value, framed by its optional boundary tokens.
//!
//! An element is recognised in eight steps, of which only the value is
//! required: whitespace, one `[`, one `,`, whitespace, the value, whitespace,
//! one `]`, whitespace. The three tokens are independently optional, so one
//! routine serves every position in the array.
use vstd::prelude::*;
use vstd::string::StringSliceAdditionalSpecFns;
use vstd::utf8::{encode_utf8_valid_utf8, is_char_boundary, valid_utf8, valid_utf8_split};
use crate::decode::{lemma_boundary_after_run, lemma_boundary_shift};
use crate::outcome::{Parse, ParseOutcome};
use crate::tokens::{
    element_end,
    find_element_end,
    find_value_start,
    lemma_element_end_ascii,
    lemma_element_end_bounds,
    lemma_value_start_ascii,
    lemma_value_start_bounds,
    value_start,
};

verus! {

/// The outcome of extracting one element from `input`, where `value` is what
/// parsing a value at `value_start(input)` gave.
///
/// A success consumes through the end of the element; anything else is
/// handed on and consumes nothing.
pub open spec fn extract(input: Seq<u8>, value: Parse) -> Parse {
    match value {
        Parse::Success { value, consumed } => Parse::Success {
            value,
            consumed: element_end(input, value_start(input) + consumed) as nat,
        },
        Parse::Incomplete => Parse::Incomplete,
        Parse::Invalid { reason } => Parse::Invalid { reason },
    }
}

/// The part of `input` that the parser of a single value is to look at.
pub open spec fn value_slice(input: Seq<u8>) -> Seq<u8> {
    input.skip(value_start(input))
}

/// The value of the first element of a text begins between two characters,
/// so that what the parser of a single value is to look at is text.
pub proof fn lemma_value_slice_is_text(input: Seq<u8>)
    requires
        valid_utf8(input),
    ensures
        is_char_boundary(input, value_start(input)),
        valid_utf8(value_slice(input)),
{
    lemma_value_start_bounds(input);
    lemma_value_start_ascii(input);
    lemma_boundary_after_run(input, 0, value_start(input));
    valid_utf8_split(input, value_start(input));
}

/// An element that is extracted from a text ends between two characters, so
/// that what is left behind it is text.
pub proof fn lemma_extract_leaves_text(input: Seq<u8>, value: Parse)
    requires
        valid_utf8(input),
        value.fits(value_slice(input)),
    ensures
        extract(input, value) matches Parse::Success { consumed, .. } ==> is_char_boundary(
            input,
            consumed as int,
        ) && valid_utf8(input.skip(consumed as int)),
{
    if let Parse::Success { consumed: taken, .. } = value {
        let start = value_start(input);
        let after = start + taken;
        let end = element_end(input, after);
        lemma_value_slice_is_text(input);
        lemma_boundary_shift(input, start, taken as int);
        lemma_element_end_bounds(input, after);
        lemma_element_end_ascii(input, after);
        lemma_boundary_after_run(input, after, end);
        valid_utf8_split(input, end);
    }
}

/// Returns the text that the parser of a single value is to look at: the
/// input without the leading whitespace and tokens of its first element.
pub fn element_value_text(input: &str) -> (text: &str)
    ensures
        text.spec_bytes() == value_slice(input.spec_bytes()),
{
    let start = find_value_start(input.as_bytes());
    proof {
        encode_utf8_valid_utf8(input@);
        lemma_value_slice_is_text(input.spec_bytes());
    }
    let (_, text) = input.split_at(start);
    text
}

/// Extracts one element from the front of `input`, where `value` is what
/// parsing a value from `element_value_text(input)` gave.
///
/// On a success the result carries the value and the number of bytes taken
/// from `input`, boundary tokens and whitespace included. An incomplete or
/// invalid value makes the whole attempt incomplete or invalid, and nothing
/// is consumed.
pub fn chunked_json_array_parser(input: &str, value: ParseOutcome) -> (r: ParseOutcome)
    requires
        value@.fits(value_slice(input.spec_bytes())),
    ensures
        r@ == extract(input.spec_bytes(), value@),
{
    match value {
        ParseOutcome::Success { value, consumed } => {
            let bytes = input.as_bytes();
            let start = find_value_start(bytes);
            let len = bytes.len();
            assert(start + consumed <= len);
            let end = find_element_end(bytes, start + consumed);
            ParseOutcome::Success { value, consumed: end }
        },
        ParseOutcome::Incomplete => ParseOutcome::Incomplete,
        ParseOutcome::Invalid { reason } => ParseOutcome::Invalid { reason },
    }
}

} // verus!
