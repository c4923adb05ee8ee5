//! The three index tables' row types, their spec-level models, and the
//! validity conditions an archive's index must satisfy.

use vstd::prelude::*;

verus! {

/// One regular file in the archive: where its bytes sit inside the
/// uncompressed payload of one block.
#[derive(Debug, Clone, PartialEq, Eq)]
pub struct ArchiveFileEntry {
    /// Path relative to the archive root, forward-slash separated; non-empty.
    pub name: String,
    /// 0-based id of the block holding the file; a file never crosses blocks.
    pub block: i64,
    /// Byte offset of the file's first byte within the uncompressed block.
    pub offset: i64,
    /// File byte length.
    pub size: i64,
}

/// One directory that was empty at pack time, recorded so extraction can
/// recreate it.  Non-empty directories are implied by the files inside them.
#[derive(Debug, Clone, PartialEq, Eq)]
pub struct ArchiveFolderLeafEntry {
    /// Path relative to the archive root.
    pub name: String,
}

/// One compressed block of the blob.
#[derive(Debug, Clone, PartialEq, Eq)]
pub struct ArchiveBlockInfo {
    /// Dense 0-based ordinal in blob order.
    pub id: i64,
    /// Byte length of the block after compression.
    pub size: i64,
    /// Byte offset of the block within the blob (not within the archive);
    /// the absolute archive offset adds the prefix and index lengths.
    pub offset: i64,
    /// Codec label string for this block.
    pub compression_type: String,
}

/// Spec-level model of a file row.
pub ghost struct FileRowV {
    pub name: Seq<char>,
    pub block: int,
    pub offset: int,
    pub size: int,
}

/// Spec-level model of a folder-leaf row.
pub ghost struct LeafRowV {
    pub name: Seq<char>,
}

/// Spec-level model of a block row.
pub ghost struct BlockRowV {
    pub id: int,
    pub size: int,
    pub offset: int,
    pub compression_type: Seq<char>,
}

impl View for ArchiveFileEntry {
    type V = FileRowV;

    open spec fn view(&self) -> FileRowV {
        FileRowV {
            name: self.name@,
            block: self.block as int,
            offset: self.offset as int,
            size: self.size as int,
        }
    }
}

impl View for ArchiveFolderLeafEntry {
    type V = LeafRowV;

    open spec fn view(&self) -> LeafRowV {
        LeafRowV { name: self.name@ }
    }
}

impl View for ArchiveBlockInfo {
    type V = BlockRowV;

    open spec fn view(&self) -> BlockRowV {
        BlockRowV {
            id: self.id as int,
            size: self.size as int,
            offset: self.offset as int,
            compression_type: self.compression_type@,
        }
    }
}

/// Spec-level model of a whole index: the three tables.
pub ghost struct IndexV {
    pub files: Seq<FileRowV>,
    pub leaves: Seq<LeafRowV>,
    pub blocks: Seq<BlockRowV>,
}

/// The models of a sequence of file rows.
pub open spec fn file_rows_view(s: Seq<ArchiveFileEntry>) -> Seq<FileRowV> {
    s.map_values(|r: ArchiveFileEntry| r@)
}

/// The models of a sequence of leaf rows.
pub open spec fn leaf_rows_view(s: Seq<ArchiveFolderLeafEntry>) -> Seq<LeafRowV> {
    s.map_values(|r: ArchiveFolderLeafEntry| r@)
}

/// The models of a sequence of block rows.
pub open spec fn block_rows_view(s: Seq<ArchiveBlockInfo>) -> Seq<BlockRowV> {
    s.map_values(|r: ArchiveBlockInfo| r@)
}

/// A file row that can live in an index: a non-empty name and a non-negative
/// placement referring to one of `nblocks` blocks.
pub open spec fn valid_file_row(r: FileRowV, nblocks: int) -> bool {
    &&& r.name.len() > 0
    &&& 0 <= r.block < nblocks
    &&& 0 <= r.offset
    &&& 0 <= r.size
    &&& r.offset + r.size <= i64::MAX
}

/// Block rows with dense ascending ids and contiguous offsets starting at 0:
/// the layout invariant of the blob.
pub open spec fn contiguous_blocks(blocks: Seq<BlockRowV>) -> bool {
    &&& forall|i: int| 0 <= i < blocks.len() ==> (#[trigger] blocks[i]).id == i
    &&& forall|i: int| 0 <= i < blocks.len() ==> 0 <= (#[trigger] blocks[i]).size
    &&& blocks.len() > 0 ==> blocks[0].offset == 0
    &&& forall|i: int|
        0 < i < blocks.len() ==> (#[trigger] blocks[i]).offset == blocks[i - 1].offset + blocks[i
            - 1].size
}

} // verus!
