use vstd::prelude::*;
use vstd::string::StringExecFns;

verus! {

/// Every failure the archive engine can report.  Each variant carries a
/// human-readable cause string; callers match on the variant.
#[derive(Debug, Clone, PartialEq, Eq)]
pub enum ArchiveError {
    /// A file-system operation failed (only produced by unverified callers
    /// that perform I/O around the engine).
    IoFailure { op: String, path: String },
    /// A compression or decompression call failed.
    CodecFailure { stage: String, codec: String, cause: String },
    /// A codec label outside the supported set.
    UnknownCodec { label: String },
    /// The archive bytes are not a well-formed archive.
    BadArchive { reason: String },
    /// A requested entry is absent from the index.
    FileNotFound { name: String },
    /// An invalid regular-expression pattern.
    BadPattern { source: String },
    /// The embedded index store failed.
    IndexStoreFailure { op: String },
    /// Wraps an underlying error during bulk extraction.
    ExtractFailed { name: String, cause: String },
    /// Wraps an underlying error during packing or writing.
    ArchiveWriteFailed { stage: String, cause: String },
}

impl ArchiveError {
    /// A short human-readable description, for callers that print errors.
    pub fn message(&self) -> String {
        match self {
            ArchiveError::IoFailure { op, path } => {
                String::from_str("i/o failure during ").concat(op.as_str()).concat(" on ").concat(
                    path.as_str(),
                )
            },
            ArchiveError::CodecFailure { stage, codec, cause } => {
                String::from_str("codec ").concat(codec.as_str()).concat(" failed at ").concat(
                    stage.as_str(),
                ).concat(": ").concat(cause.as_str())
            },
            ArchiveError::UnknownCodec { label } => {
                String::from_str("unknown codec: ").concat(label.as_str())
            },
            ArchiveError::BadArchive { reason } => {
                String::from_str("bad archive: ").concat(reason.as_str())
            },
            ArchiveError::FileNotFound { name } => {
                String::from_str("not found in archive: ").concat(name.as_str())
            },
            ArchiveError::BadPattern { source } => {
                String::from_str("invalid pattern: ").concat(source.as_str())
            },
            ArchiveError::IndexStoreFailure { op } => {
                String::from_str("index store failure during ").concat(op.as_str())
            },
            ArchiveError::ExtractFailed { name, cause } => {
                String::from_str("extraction of ").concat(name.as_str()).concat(" failed: ").concat(
                    cause.as_str(),
                )
            },
            ArchiveError::ArchiveWriteFailed { stage, cause } => {
                String::from_str("archive write failed at ").concat(stage.as_str()).concat(
                    ": ",
                ).concat(cause.as_str())
            },
        }
    }
}

} // verus!
