//! The input payload and the matching text derived from it.

use vstd::prelude::*;
use crate::text::{trim_end, trim, trim_end_spec, trim_spec};

verus! {

/// An acquired input payload: decodable text, or raw bytes.
pub enum Data {
    Text(String),
    Binary(Vec<u8>),
}

/// The matching text every pattern rule is evaluated against: the trimmed
/// payload for text, the trimmed MIME type for binary data.
pub open spec fn matching_text_spec(d: Data, binary_mime: Seq<char>) -> Seq<char> {
    match d {
        Data::Text(s) => trim_end_spec(s@),
        Data::Binary(_) => trim_spec(binary_mime),
    }
}

impl Data {
    /// Whether the payload is textual.
    pub fn is_text(&self) -> (r: bool)
        ensures
            r == (self is Text),
    {
        match self {
            Data::Text(_) => true,
            Data::Binary(_) => false,
        }
    }

    /// Derives the matching text. For a binary payload, `binary_mime` is
    /// the MIME type an external inspector reported for the persisted
    /// bytes; a textual payload ignores it.
    pub fn get_text_for_matching(&self, binary_mime: &str) -> (r: String)
        ensures
            r@ == matching_text_spec(*self, binary_mime@),
    {
        match self {
            Data::Text(s) => trim_end(s.as_str()),
            Data::Binary(_) => trim(binary_mime),
        }
    }
}

} // verus!
