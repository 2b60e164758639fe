//! The ways in which an operation on objects can fail.

use vstd::prelude::*;

verus! {

/// A failure of one logical operation. No failure is ever downgraded to a
/// warning: the operation that meets one stops and reports it.
#[derive(Clone, Copy, Debug, PartialEq, Eq, Structural)]
pub enum Error {
    /// The compressed stream is truncated or corrupt and cannot be read.
    CorruptStream,
    /// The compressor failed while an object was written.
    Compression,
    /// No object is stored under the digest that was asked for.
    NotFound,
    /// The decompressed stream ends before the NUL that closes the header.
    HeaderUnterminated,
    /// The header is not valid UTF-8 text.
    HeaderNotText,
    /// The header holds no space between the kind and the size.
    HeaderNoSeparator,
    /// The kind is none of `blob`, `tree` and `commit`, or it is not the
    /// kind that the reader can interpret.
    UnsupportedKind,
    /// The size is not a decimal number that fits 64 bits.
    MalformedSize,
    /// The content holds fewer bytes than the declared size.
    IncompleteContent,
    /// Bytes remain after the declared size has been consumed.
    TrailingContent,
    /// The content of a tree object does not follow the entry format.
    MalformedTree,
    /// A digest is not written as 40 lowercase hexadecimal characters.
    MalformedDigest,
    /// The name of a tree entry holds a NUL byte.
    MalformedName,
}

/// The broad classes into which failures fall.
#[derive(Clone, Copy, Debug, PartialEq, Eq, Structural)]
pub enum ErrorClass {
    /// Persistent storage could not be read.
    Io,
    /// The bytes of an object or of a digest do not follow their format.
    Malformed,
    /// The object exists but cannot be interpreted further.
    UnsupportedKind,
    /// The declared size and the bytes at hand disagree.
    SizeMismatch,
}

impl Error {
    /// The class of this failure.
    pub open spec fn spec_class(self) -> ErrorClass {
        match self {
            Error::CorruptStream | Error::Compression | Error::NotFound => ErrorClass::Io,
            Error::HeaderUnterminated
            | Error::HeaderNotText
            | Error::HeaderNoSeparator
            | Error::MalformedSize
            | Error::MalformedTree
            | Error::MalformedDigest
            | Error::MalformedName => ErrorClass::Malformed,
            Error::UnsupportedKind => ErrorClass::UnsupportedKind,
            Error::IncompleteContent | Error::TrailingContent => ErrorClass::SizeMismatch,
        }
    }

    /// The class of this failure.
    #[verifier::when_used_as_spec(spec_class)]
    pub fn class(self) -> (r: ErrorClass)
        ensures
            r == self.spec_class(),
    {
        match self {
            Error::CorruptStream | Error::Compression | Error::NotFound => ErrorClass::Io,
            Error::HeaderUnterminated
            | Error::HeaderNotText
            | Error::HeaderNoSeparator
            | Error::MalformedSize
            | Error::MalformedTree
            | Error::MalformedDigest
            | Error::MalformedName => ErrorClass::Malformed,
            Error::UnsupportedKind => ErrorClass::UnsupportedKind,
            Error::IncompleteContent | Error::TrailingContent => ErrorClass::SizeMismatch,
        }
    }
}

} // verus!
