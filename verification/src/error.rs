//! The error surface shared by every operation of the library.

use vstd::prelude::*;

verus! {

/// `std::io::Error`, carried through unchanged inside [`Error::Io`].
#[verifier::external_type_specification]
#[verifier::external_body]
pub struct ExIoError(std::io::Error);

/// Everything that can go wrong in an operation of the library.
#[derive(Debug)]
#[non_exhaustive]
#[allow(inconsistent_fields)]
pub enum Error {
    /// An I/O failure, with the path it happened at and what was being done.
    Io { source: std::io::Error, path: String, context: String },
    /// Stored data that does not have the expected form.
    Corruption { file: String, offset: u64, message: String },
    /// A caller-supplied argument that is not acceptable.
    InvalidArgument { field: String, reason: String },
    /// A document or resource that does not exist.
    NotFound { id: String },
    /// A vector whose length differs from the declared dimension.
    WrongDimension { expected: usize, got: usize },
    /// The collection is held by another writer.
    CollectionLocked { name: String },
    /// A collection of that name already exists.
    CollectionExists { name: String },
    /// No collection of that name exists.
    CollectionNotFound { name: String },
    /// A value could not be encoded or decoded.
    Serialization(String),
    /// A malformed record in the write-ahead log.
    WalError { seq: u64, message: String },
    /// A segment body whose checksum differs from the one in its header.
    ChecksumMismatch { file: String, expected: u64, got: u64 },
}

impl Error {
    /// An I/O error at `path`, raised while doing `context`.
    pub fn io_err(path: &str, context: &str, source: std::io::Error) -> (e: Error)
        ensures
            e matches Error::Io { source: s, path: p, context: c } && s == source && p@ == path@
                && c@ == context@,
    {
        Error::Io { source, path: path.to_owned(), context: context.to_owned() }
    }

    /// A corruption error for `file` at byte `offset`.
    pub fn corruption(file: &str, offset: u64, message: &str) -> (e: Error)
        ensures
            e matches Error::Corruption { file: f, offset: o, message: m } && f@ == file@ && o
                == offset && m@ == message@,
    {
        Error::Corruption { file: file.to_owned(), offset, message: message.to_owned() }
    }

    /// The text that says what went wrong: the context of an I/O error, the
    /// message of a corruption, serialization or log error, the reason of
    /// an invalid argument, the id or name that was not found, exists or
    /// is locked, and a fixed text for a wrong dimension and a checksum
    /// mismatch.
    pub fn message(&self) -> (r: String)
        ensures
            match self {
                Error::Io { context, .. } => r@ == context@,
                Error::Corruption { message, .. } => r@ == message@,
                Error::InvalidArgument { reason, .. } => r@ == reason@,
                Error::NotFound { id } => r@ == id@,
                Error::WrongDimension { .. } => r@ == "dimension mismatch"@,
                Error::CollectionLocked { name } => r@ == name@,
                Error::CollectionExists { name } => r@ == name@,
                Error::CollectionNotFound { name } => r@ == name@,
                Error::Serialization(message) => r@ == message@,
                Error::WalError { message, .. } => r@ == message@,
                Error::ChecksumMismatch { .. } => r@ == "checksum mismatch"@,
            },
    {
        match self {
            Error::Io { context, .. } => context.clone(),
            Error::Corruption { message, .. } => message.clone(),
            Error::InvalidArgument { reason, .. } => reason.clone(),
            Error::NotFound { id } => id.clone(),
            Error::WrongDimension { .. } => "dimension mismatch".to_owned(),
            Error::CollectionLocked { name } => name.clone(),
            Error::CollectionExists { name } => name.clone(),
            Error::CollectionNotFound { name } => name.clone(),
            Error::Serialization(message) => message.clone(),
            Error::WalError { message, .. } => message.clone(),
            Error::ChecksumMismatch { .. } => "checksum mismatch".to_owned(),
        }
    }

    /// An invalid-argument error naming the offending `field`.
    pub fn invalid_arg(field: &str, reason: &str) -> (e: Error)
        ensures
            e matches Error::InvalidArgument { field: f, reason: r } && f@ == field@ && r@
                == reason@,
    {
        Error::InvalidArgument { field: field.to_owned(), reason: reason.to_owned() }
    }
}

} // verus!
