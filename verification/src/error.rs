use vstd::prelude::*;

verus! {

/// The error kinds that decoding a line can produce.  Every kind is local and
/// recoverable: the outermost caller falls back to emitting the original line
/// unchanged, whatever the kind was.
#[derive(Clone, Copy, Debug, PartialEq, Eq, Structural)]
pub enum DecodeError {
    /// No colon was found in the line.
    MissingDelimiter,
    /// A byte-region token is not valid hex or has an unsupported length.
    MalformedToken,
    /// The total byte count is not one of 2, 4, 6 or 8.
    UnsupportedLength,
    /// No template's fixed bits matched, or every matching template's guard rejected.
    UnrecognizedEncoding,
    /// A matched field's value falls outside the renderable range.
    FormatError,
}

} // verus!
