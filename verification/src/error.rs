use vstd::prelude::*;

verus! {

/// Everything that can go wrong while a database is opened or read.
#[derive(Clone, Copy, Debug, PartialEq, Eq, Structural)]
pub enum EseError {
    /// The file ends before the page that was asked for.
    Io,
    /// The file does not begin with the database signature.
    BadSignature,
    /// The stored header checksum differs from the computed one.
    ChecksumMismatch,
    /// Header and mirror header disagree, or the page size is not one the format has.
    HeaderMismatch,
    /// The format version is not `0x620`.
    UnsupportedVersion,
    /// A page on a tree walk lacks a flag it must have.
    PageFlagsUnexpected,
    /// A leaf's previous-page link differs from the page visited before it.
    SiblingChainBroken,
    /// An offset or size inside a page points outside of it.
    RecordMalformed,
    /// The table has no column with the identifier asked for.
    ColumnNotFound,
    /// The long-value index has no segment for the key.
    LongValueNotFound,
    /// The catalog has no table with the name asked for.
    TableNotFound,
    /// The table handle does not name an open table.
    OutOfRangeHandle,
    /// Moves to an arbitrary row and the linear tagged-data layout.
    Unimplemented,
}

impl EseError {
    /// A short text for the error, for messages.
    pub fn text(&self) -> (s: &'static str)
        ensures
            s@ == match *self {
                EseError::Io => "read past the end of the file"@,
                EseError::BadSignature => "bad file header signature"@,
                EseError::ChecksumMismatch => "wrong file header checksum"@,
                EseError::HeaderMismatch => "file header and mirror header disagree"@,
                EseError::UnsupportedVersion => "unsupported format version"@,
                EseError::PageFlagsUnexpected => "unexpected page flags"@,
                EseError::SiblingChainBroken => "wrong previous page number"@,
                EseError::RecordMalformed => "malformed record"@,
                EseError::ColumnNotFound => "column not found"@,
                EseError::LongValueNotFound => "long value key not found"@,
                EseError::TableNotFound => "table not found"@,
                EseError::OutOfRangeHandle => "table handle out of range"@,
                EseError::Unimplemented => "not implemented"@,
            },
    {
        match self {
            EseError::Io => "read past the end of the file",
            EseError::BadSignature => "bad file header signature",
            EseError::ChecksumMismatch => "wrong file header checksum",
            EseError::HeaderMismatch => "file header and mirror header disagree",
            EseError::UnsupportedVersion => "unsupported format version",
            EseError::PageFlagsUnexpected => "unexpected page flags",
            EseError::SiblingChainBroken => "wrong previous page number",
            EseError::RecordMalformed => "malformed record",
            EseError::ColumnNotFound => "column not found",
            EseError::LongValueNotFound => "long value key not found",
            EseError::TableNotFound => "table not found",
            EseError::OutOfRangeHandle => "table handle out of range",
            EseError::Unimplemented => "not implemented",
        }
    }
}

} // verus!
