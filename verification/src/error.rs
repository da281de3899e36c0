//! The ways in which decoding a dictionary fails.

use vstd::prelude::*;

verus! {

/// How the payload of a content block is stored.
#[derive(Clone, Copy, Debug, PartialEq, Eq, Structural)]
pub enum ContentBlockType {
    /// The payload is the data itself.
    Raw,
    /// The payload is an LZO1X stream.
    Lzo,
    /// The payload is a zlib stream.
    Zlib,
}

/// Why a payload could not be turned into its data.
#[derive(Clone, Copy, Debug, PartialEq, Eq, Structural)]
pub enum DecompressionCause {
    /// The decompressor rejected the payload.
    Codec,
    /// The data does not have the length that the file declares for it.
    WrongLength,
}

/// Why the metadata header could not be read.
#[derive(Clone, Copy, Debug, PartialEq, Eq, Structural)]
pub enum MetadataCause {
    /// The header is not well-formed UTF-16.
    InvalidUtf16,
    /// The header is not well-formed XML.
    MalformedXml,
    /// A required attribute is absent.
    MissingAttribute,
    /// A version attribute is not a decimal number.
    InvalidNumber,
}

/// A failure to decode a dictionary.
#[derive(Debug, PartialEq, Eq)]
#[allow(inconsistent_fields)]
pub enum Error {
    /// The source ended before a declared length was satisfied.
    Truncated,
    /// The sentinel in front of the key block directory was wrong.
    BadMagic { expected: u32, found: u32, offset: u64 },
    /// A content block has a type tag other than 0, 1 or 2.
    UnknownBlockType { value: u32 },
    /// A payload could not be decompressed, or gave data of the wrong length.
    DecompressionFailed { method: ContentBlockType, cause: DecompressionCause },
    /// The metadata header could not be decoded.
    MetadataDecodeFailed { cause: MetadataCause },
    /// The dictionary is encrypted.
    UnsupportedEncrypted { value: String },
    /// A declared decompressed size is above the ceiling.
    SizeCeilingExceeded { declared: u64, limit: u64 },
}

/// The mathematical value of an [`Error`].
#[allow(inconsistent_fields)]
pub enum ErrorView {
    Truncated,
    BadMagic { expected: u32, found: u32, offset: u64 },
    UnknownBlockType { value: u32 },
    DecompressionFailed { method: ContentBlockType, cause: DecompressionCause },
    MetadataDecodeFailed { cause: MetadataCause },
    UnsupportedEncrypted { value: Seq<char> },
    SizeCeilingExceeded { declared: u64, limit: u64 },
}

impl View for Error {
    type V = ErrorView;

    open spec fn view(&self) -> ErrorView {
        match *self {
            Error::Truncated => ErrorView::Truncated,
            Error::BadMagic { expected, found, offset } => ErrorView::BadMagic {
                expected,
                found,
                offset,
            },
            Error::UnknownBlockType { value } => ErrorView::UnknownBlockType { value },
            Error::DecompressionFailed { method, cause } => ErrorView::DecompressionFailed {
                method,
                cause,
            },
            Error::MetadataDecodeFailed { cause } => ErrorView::MetadataDecodeFailed { cause },
            Error::UnsupportedEncrypted { value } => ErrorView::UnsupportedEncrypted {
                value: value@,
            },
            Error::SizeCeilingExceeded { declared, limit } => ErrorView::SizeCeilingExceeded {
                declared,
                limit,
            },
        }
    }
}

} // verus!
