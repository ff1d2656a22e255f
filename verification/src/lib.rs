//! A streaming XML minifier: every element tag name is rewritten to a short
//! one-letter symbol, text nodes are whitespace-normalized, and a side table
//! mapping symbols back to the original names is emitted alongside the
//! rewritten document.

use vstd::prelude::*;
use vstd::string::StringExecFns;

pub mod text;
pub mod xml;

verus! {

/// The failure kinds of a minification run. Every error aborts the run;
/// no partial output is returned.
#[derive(Debug, PartialEq, Eq)]
#[non_exhaustive]
pub enum MinifyError {
    /// Reading the source failed (raised by callers that do the reading).
    IoFailure,
    /// No minifier matches the file kind (raised by callers that dispatch).
    UnsupportedKind(String),
    /// There is no file kind to dispatch on (raised by callers that dispatch).
    MissingTypeHint,
    /// The tokenizer rejected the document.
    MalformedInput,
    /// Decoded bytes are not valid UTF-8.
    EncodingFailure,
    /// More distinct tag names than the symbol alphabet supports.
    CapacityExceeded,
}

impl MinifyError {
    /// A short human-readable description of the error.
    pub fn message(&self) -> (r: String)
        ensures
            r@ == match self {
                MinifyError::IoFailure => "could not read file"@,
                MinifyError::UnsupportedKind(kind) => "unsupported file type: "@ + kind@,
                MinifyError::MissingTypeHint => "file has no extension"@,
                MinifyError::MalformedInput => "malformed document"@,
                MinifyError::EncodingFailure => "text is not valid UTF-8"@,
                MinifyError::CapacityExceeded => "too many distinct tag names"@,
            },
    {
        match self {
            MinifyError::IoFailure => String::from_str("could not read file"),
            MinifyError::UnsupportedKind(kind) => {
                let mut m = String::from_str("unsupported file type: ");
                m.append(kind.as_str());
                m
            },
            MinifyError::MissingTypeHint => String::from_str("file has no extension"),
            MinifyError::MalformedInput => String::from_str("malformed document"),
            MinifyError::EncodingFailure => String::from_str("text is not valid UTF-8"),
            MinifyError::CapacityExceeded => String::from_str("too many distinct tag names"),
        }
    }
}

} // verus!
