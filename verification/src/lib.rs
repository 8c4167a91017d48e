//! Incremental extraction of the elements of a top-level JSON array from a
//! stream of bytes that arrives in chunks.
//!
//! The crate is organised leaf-first:
//!
//! * [`tokens`]: insignificant whitespace and the three structural tokens
//!   that may surround an element.
//! * [`outcome`]: the tagged result of a parse attempt.
//! * [`decode`]: chunk-to-text decoding that survives a character split
//!   across two chunks.
//! * [`extractor`]: the element extractor, which frames one value with its
//!   optional boundary tokens.
//! * [`pump`]: the stream pump, a state machine that accumulates text,
//!   drains elements and bounds the buffer.
//! * [`stream`]: the model of a whole run with a grammar of values.
//! * [`document`]: the inputs that are arrays of values.
//! * [`laws`]: what holds of every run.
//!
//! The grammar of a single value is not part of this crate. A caller parses
//! the value at the position the library names and reports the outcome; the
//! library decides everything else.
pub mod tokens;

pub mod outcome;

pub mod decode;

pub mod extractor;

pub mod pump;

pub mod stream;

pub mod document;

pub mod laws;
