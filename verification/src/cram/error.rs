use vstd::prelude::*;

verus! {

/// An error arising while decoding or encoding the container format.
///
/// Every failure is surfaced to the caller; none is silently swallowed.
#[derive(Clone, Copy, Debug, PartialEq, Eq, Structural)]
pub enum Error {
    /// The stream ended before a field or payload was complete.
    UnexpectedEof,
    /// A stored CRC-32 differs from the one computed over the bytes read.
    ChecksumMismatch { expected: u32, actual: u32 },
    /// A block names a compression method tag outside the registered set.
    UnsupportedCompressionMethod(u8),
    /// An encoding descriptor names a codec id outside the registered set.
    UnsupportedEncoding(u8),
    /// A block's payload cannot be decoded by its declared method, or the
    /// decoded payload does not have the declared raw size.
    CorruptBlock,
    /// An encoding descriptor references a content id that no block of the
    /// slice carries.
    MissingBlock(i32),
    /// A size or count field holds a value that cannot be used: negative,
    /// or too large for this machine.
    InvalidSize,
    /// The stream does not begin with the format's magic bytes.
    InvalidFileDefinition,
}

impl Error {
    /// A short description of the error, for reporting.
    pub fn message(&self) -> String {
        match self {
            Error::UnexpectedEof => String::from_str("unexpected end of stream"),
            Error::ChecksumMismatch { .. } => String::from_str("checksum mismatch"),
            Error::UnsupportedCompressionMethod(_) => {
                String::from_str("unsupported compression method")
            },
            Error::UnsupportedEncoding(_) => String::from_str("unsupported encoding"),
            Error::CorruptBlock => String::from_str("corrupt block"),
            Error::MissingBlock(_) => String::from_str("missing block"),
            Error::InvalidSize => String::from_str("invalid size"),
            Error::InvalidFileDefinition => String::from_str("invalid file definition"),
        }
    }
}

} // verus!
