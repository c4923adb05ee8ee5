//! A solid-block archive engine: packs a directory tree's regular files into
//! fixed-budget compressed blocks behind a relational index, and restores the
//! tree, or a selected subset of entries, from the single archive file.
//!
//! The engine works on in-memory byte vectors; file-system I/O around it is
//! left to callers.

use vstd::prelude::*;

pub mod codec;
pub mod errors;
pub mod index;
pub mod layout;
pub mod pack;
pub mod pattern;
pub mod reader;
pub mod rows;
pub mod wire;
pub mod writer;

pub use codec::{compress_data, decompress_data, Codec};
pub use errors::ArchiveError;
pub use pack::{distribute_files_to_blocks, FileMeta, Placement};
pub use reader::{decompress_archive, open_archive, ArchiveContents, ArchiveReader, ExtractedFile};
pub use rows::{ArchiveBlockInfo, ArchiveFileEntry, ArchiveFolderLeafEntry};
pub use writer::{build_archive, InputFile};

verus! {

/// Number of bytes in the length prefix at the start of an archive.
pub const HEADER_LEN_BYTES: usize = 8;

} // verus!
