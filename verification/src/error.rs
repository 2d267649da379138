use vstd::prelude::*;

verus! {

/// Why an operation of the read path failed. No error is recovered inside
/// the library: each one reaches the caller.
#[derive(Clone, Copy, Debug, PartialEq, Eq, Structural)]
pub enum Error {
    /// The checksum stored after a data block differs from the one computed.
    BlockChecksumMismatch,
    /// The checksum stored after the block metadata differs from the one computed.
    MetaChecksumMismatch,
    /// The checksum stored after the Bloom filter differs from the one computed.
    BloomChecksumMismatch,
    /// A buffer is truncated, an offset leaves the buffer, or a count does
    /// not agree with the length of the buffer.
    Malformed,
    /// A positional read of the underlying file failed.
    Io,
}

impl Error {
    /// The text of the error, as a sequence of characters.
    pub open spec fn message_spec(self) -> Seq<char> {
        match self {
            Error::BlockChecksumMismatch => "block checksum mismatched"@,
            Error::MetaChecksumMismatch => "meta checksum mismatched"@,
            Error::BloomChecksumMismatch => "checksum mismatched for bloom filters"@,
            Error::Malformed => "malformed input"@,
            Error::Io => "read failed"@,
        }
    }

    /// True for the three checksum errors.
    pub open spec fn is_checksum_spec(self) -> bool {
        self is BlockChecksumMismatch || self is MetaChecksumMismatch
            || self is BloomChecksumMismatch
    }

    /// A short text that describes the error.
    pub fn message(&self) -> (text: &'static str)
        ensures
            text@ == self.message_spec(),
    {
        match self {
            Error::BlockChecksumMismatch => "block checksum mismatched",
            Error::MetaChecksumMismatch => "meta checksum mismatched",
            Error::BloomChecksumMismatch => "checksum mismatched for bloom filters",
            Error::Malformed => "malformed input",
            Error::Io => "read failed",
        }
    }

    /// Whether a stored checksum failed verification.
    pub fn is_checksum_mismatch(&self) -> (b: bool)
        ensures
            b == self.is_checksum_spec(),
    {
        match self {
            Error::BlockChecksumMismatch => true,
            Error::MetaChecksumMismatch => true,
            Error::BloomChecksumMismatch => true,
            Error::Malformed => false,
            Error::Io => false,
        }
    }
}

} // verus!
