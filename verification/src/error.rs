//! Error values shared by every QZT operation.

use vstd::prelude::*;

verus! {

/// Declaration of std's I/O error kind, carried by [`QztError::Io`].
#[verifier::external_type_specification]
#[verifier::external_body]
pub struct ExIoErrorKind(std::io::ErrorKind);

/// Top-level error type for QZT operations.
#[derive(Debug, Clone, Copy, PartialEq, Eq)]
pub enum QztError {
    InvalidMagic,
    UnsupportedVersion,
    InvalidHeader,
    InvalidFooterTrailer,
    InvalidFooterPayload,
    NonCanonicalCbor,
    DuplicateCborKey,
    FooterChecksumMismatch,
    FinalFileSizeMismatch,
    ContainerIdMismatch,
    MetadataChecksumMismatch,
    MetadataInvalid,
    DuplicateDocumentId,
    VersionMismatch,
    NewlineModeMismatch,
    IndexRootChecksumMismatch,
    MissingRequiredBlock,
    UnknownRequiredBlock,
    DocumentNotFound,
    InvalidFlags,
    ChunkTableChecksumMismatch,
    ChunkTableInvalid,
    ChunkCountMismatch,
    ChunkSizeMismatch,
    PhysicalRangeOutOfBounds,
    LogicalRangeOutOfBounds,
    InvalidUtf8,
    InvalidUtf8Boundary,
    LineOutOfRange,
    MissingDictionary,
    DictionaryChecksumMismatch,
    CompressedChunkChecksumMismatch,
    UncompressedChunkChecksumMismatch,
    ZstdEncodeError,
    ZstdDecodeError,
    ContainerCorrupt,
    ResourceLimitExceeded,
    RangeOverlap,
    UnexpectedEof,
    WriterAlreadyFinished,
    VerifiedChecksumMismatch,
    BenchmarkMetricsMismatch,
    Io(std::io::ErrorKind),
    UnsupportedIndexMode(&'static str),
}

/// Result alias used by public QZT APIs.
pub type Result<T> = core::result::Result<T, QztError>;

} // verus!
