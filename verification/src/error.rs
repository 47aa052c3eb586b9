use vstd::prelude::*;

verus! {

/// The failure taxonomy of the format core. Every error is terminal for the
/// call that raised it: no operation retries or recovers internally, and no
/// partial document is ever returned alongside an error.
#[derive(Clone, Copy, Debug, PartialEq, Eq, Structural)]
pub enum FormatError {
    /// The stream ended before a fixed-size or declared-length read completed.
    UnexpectedEof,
    /// The sink rejected bytes (its capacity would be exceeded).
    WriteFailure,
    /// A declared length or field value is inconsistent with its bounds.
    MalformedSection,
    /// The stream does not start with the expected magic identifier.
    BadMagic,
    /// The header's format version is not supported.
    UnsupportedVersion,
    /// The computed data extent exceeds the actual stream length.
    TruncatedFile,
    /// A supplied data payload has a byte count different from the declared one.
    SizeMismatch,
    /// An entry lookup by name found no entry.
    NotFound,
}

impl FormatError {
    /// A human-readable name for the error, for callers that report it.
    pub fn describe(&self) -> (r: &'static str)
        ensures
            r@ =~= match self {
                FormatError::UnexpectedEof => "unexpected end of stream"@,
                FormatError::WriteFailure => "sink rejected bytes"@,
                FormatError::MalformedSection => "malformed section"@,
                FormatError::BadMagic => "bad magic"@,
                FormatError::UnsupportedVersion => "unsupported version"@,
                FormatError::TruncatedFile => "truncated file"@,
                FormatError::SizeMismatch => "payload size mismatch"@,
                FormatError::NotFound => "entry not found"@,
            },
    {
        match self {
            FormatError::UnexpectedEof => "unexpected end of stream",
            FormatError::WriteFailure => "sink rejected bytes",
            FormatError::MalformedSection => "malformed section",
            FormatError::BadMagic => "bad magic",
            FormatError::UnsupportedVersion => "unsupported version",
            FormatError::TruncatedFile => "truncated file",
            FormatError::SizeMismatch => "payload size mismatch",
            FormatError::NotFound => "entry not found",
        }
    }
}

} // verus!
