//! The decode error: a structured failure for malformed wire input.

use vstd::prelude::*;
use crate::strutil::str_to_chars;

verus! {

/// Why a decode failed. Decoding is atomic: on the first structural
/// problem the whole decode fails with one of these.
#[derive(Clone, Copy, PartialEq, Eq, Structural, Debug)]
pub enum DecodeErr {
    /// The text does not follow the wire grammar at some point.
    Syntax,
    /// A required key is absent from an object.
    MissingField,
    /// A key occurs twice in one object.
    DuplicateField,
    /// An integer member lies outside the range of its field.
    IntOutOfRange,
    /// Well-formed data followed by trailing non-whitespace text.
    TrailingText,
}

impl DecodeErr {
    /// The description of each failure, as characters.
    pub open spec fn describe_spec(self) -> Seq<char> {
        match self {
            DecodeErr::Syntax => "malformed input text"@,
            DecodeErr::MissingField => "a required key is missing"@,
            DecodeErr::DuplicateField => "a key occurs twice in one object"@,
            DecodeErr::IntOutOfRange => "an integer value is out of range"@,
            DecodeErr::TrailingText => "trailing text after the value"@,
        }
    }

    /// A human-readable description of the failure.
    pub fn describe(&self) -> (r: String)
        ensures
            r@ == self.describe_spec(),
    {
        let m: &str = match self {
            DecodeErr::Syntax => "malformed input text",
            DecodeErr::MissingField => "a required key is missing",
            DecodeErr::DuplicateField => "a key occurs twice in one object",
            DecodeErr::IntOutOfRange => "an integer value is out of range",
            DecodeErr::TrailingText => "trailing text after the value",
        };
        let chars = str_to_chars(m);
        crate::strutil::chars_to_string(&chars)
    }
}

} // verus!
