//! The archive reader: parses the 8-byte prefix, decompresses and hydrates
//! the index, validates it, and extracts entries by slicing decompressed
//! blocks.  A reader owns the archive bytes; callers that stream from disk
//! read the file once and hand it over.

use crate::codec::{decompress_with, parse_codec, spec_codec_of_label, spec_unpack, Codec};
use crate::errors::ArchiveError;
use crate::index::decode_index;
use crate::layout::{
    file_names_unique, find_file_row, leaf_names_unique, spec_archive_model, spec_blob_start,
    spec_block_comp_bytes, spec_block_raw, spec_content_of, spec_find_file, spec_header_len,
    spec_index_valid, spec_open_index,
};
use crate::rows::{
    block_rows_view, contiguous_blocks, file_rows_view, leaf_rows_view, valid_file_row,
    ArchiveBlockInfo, ArchiveFileEntry, ArchiveFolderLeafEntry, IndexV,
};
use crate::pattern::{regex_matches, regex_valid, Pattern};
use crate::rows::{FileRowV, LeafRowV};
use crate::wire::read_u64;
use crate::writer::names_view;
use vstd::prelude::*;
use vstd::slice::{slice_subrange, slice_to_vec};
use vstd::string::StringExecFns;

verus! {

/// Default spill threshold: blocks compressed larger than this are candidates
/// for temp-file decompression in callers that stream to disk.
pub const DEFAULT_MAX_MEM_EXTRACT_SIZE: u64 = 16777216;

/// The spill threshold a reader adopts: the given value (clamped to the
/// format's limit) or the default.
pub open spec fn spec_threshold(m: Option<u64>) -> int {
    match m {
        None => DEFAULT_MAX_MEM_EXTRACT_SIZE as int,
        Some(v) => if v > i64::MAX as u64 {
            i64::MAX as int
        } else {
            v as int
        },
    }
}

fn bad_archive(reason: &str) -> (r: ArchiveError)
    ensures
        r matches ArchiveError::BadArchive { reason: rs } && rs@ == reason@,
{
    ArchiveError::BadArchive { reason: String::from_str(reason) }
}

/// Checks the block table: dense ids, contiguous offsets from 0, every block
/// inside the archive, every codec label supported.
fn check_blocks(blocks: &Vec<ArchiveBlockInfo>, blob_start: usize, alen: usize) -> (r: bool)
    requires
        blob_start <= alen,
        forall|b: int|
            0 <= b < blocks@.len() ==> crate::index::nonneg_block_row(
                #[trigger] block_rows_view(blocks@)[b],
            ),
    ensures
        r == ({
            &&& contiguous_blocks(block_rows_view(blocks@))
            &&& forall|b: int|
                0 <= b < blocks@.len() ==> blob_start + (
                #[trigger] block_rows_view(blocks@)[b]).offset + block_rows_view(blocks@)[b].size
                    <= alen
            &&& forall|b: int|
                0 <= b < blocks@.len() ==> spec_codec_of_label(
                    (#[trigger] block_rows_view(blocks@)[b]).compression_type,
                ) is Some
        }),
{
    let ghost bv = block_rows_view(blocks@);
    let mut b: usize = 0;
    while b < blocks.len()
        invariant
            b <= blocks@.len(),
            blob_start <= alen,
            bv == block_rows_view(blocks@),
            bv.len() == blocks@.len(),
            forall|j: int| 0 <= j < blocks@.len() ==> bv[j] == blocks@[j]@,
            forall|j: int|
                0 <= j < blocks@.len() ==> crate::index::nonneg_block_row(#[trigger] bv[j]),
            forall|j: int| 0 <= j < b ==> (#[trigger] bv[j]).id == j,
            b > 0 ==> bv[0].offset == 0,
            forall|j: int| 0 < j < b ==> (#[trigger] bv[j]).offset == bv[j - 1].offset + bv[j
                - 1].size,
            forall|j: int| 0 <= j < b ==> blob_start + (#[trigger] bv[j]).offset + bv[j].size
                <= alen,
            forall|j: int|
                0 <= j < b ==> spec_codec_of_label(
                    (#[trigger] bv[j]).compression_type,
                ) is Some,
        decreases blocks@.len() - b,
    {
        let info = &blocks[b];
        proof {
            assert(bv[b as int] == blocks@[b as int]@);
        }
        if b as u64 > i64::MAX as u64 {
            proof {
                assert(bv[b as int].id <= i64::MAX);
                if contiguous_blocks(bv) {
                    assert(bv[b as int].id == b as int);
                }
            }
            return false;
        }
        if info.id != b as i64 {
            proof {
                if contiguous_blocks(bv) {
                    assert(bv[b as int].id == b as int);
                }
            }
            return false;
        }
        if b == 0 {
            if info.offset != 0 {
                proof {
                    if contiguous_blocks(bv) {
                        assert(bv[0].offset == 0);
                    }
                }
                return false;
            }
        } else {
            let prev = &blocks[b - 1];
            proof {
                assert(bv[b - 1] == blocks@[b - 1]@);
            }
            if info.offset as u64 != prev.offset as u64 + prev.size as u64 {
                proof {
                    if contiguous_blocks(bv) {
                        assert(bv[b as int].offset == bv[b - 1].offset + bv[b - 1].size);
                    }
                }
                return false;
            }
        }
        let avail: u64 = (alen - blob_start) as u64;
        if info.offset as u64 > avail {
            proof {
                assert(blob_start + bv[b as int].offset + bv[b as int].size > alen);
            }
            return false;
        }
        if info.size as u64 > avail - (info.offset as u64) {
            proof {
                assert(blob_start + bv[b as int].offset + bv[b as int].size > alen);
            }
            return false;
        }
        if parse_codec(info.compression_type.as_str()).is_none() {
            return false;
        }
        b += 1;
    }
    true
}

/// Checks the file table: every row names an existing block with a sane
/// non-negative byte range.
fn check_files(files: &Vec<ArchiveFileEntry>, nblocks: usize) -> (r: bool)
    ensures
        r == forall|i: int|
            0 <= i < files@.len() ==> valid_file_row(
                #[trigger] file_rows_view(files@)[i],
                nblocks as int,
            ),
{
    let ghost fv = file_rows_view(files@);
    let mut i: usize = 0;
    while i < files.len()
        invariant
            i <= files@.len(),
            fv == file_rows_view(files@),
            fv.len() == files@.len(),
            forall|j: int| 0 <= j < files@.len() ==> fv[j] == files@[j]@,
            forall|j: int| 0 <= j < i ==> valid_file_row(#[trigger] fv[j], nblocks as int),
        decreases files@.len() - i,
    {
        let row = &files[i];
        proof {
            assert(fv[i as int] == files@[i as int]@);
        }
        if row.name.as_str().is_empty() {
            proof {
                assert(!valid_file_row(fv[i as int], nblocks as int));
            }
            return false;
        }
        if row.block < 0 || row.block as u64 >= nblocks as u64 {
            proof {
                assert(!valid_file_row(fv[i as int], nblocks as int));
            }
            return false;
        }
        if row.offset < 0 || row.size < 0 {
            proof {
                assert(!valid_file_row(fv[i as int], nblocks as int));
            }
            return false;
        }
        if row.offset as u64 > (i64::MAX as u64) - (row.size as u64) {
            proof {
                assert(fv[i as int].offset + fv[i as int].size > i64::MAX);
            }
            return false;
        }
        i += 1;
    }
    true
}

/// The hydrated, validated state of one archive: the archive bytes, the
/// three index tables, and the spill threshold.
pub struct ArchiveReader {
    archive: Vec<u8>,
    max_mem_extract_size: i64,
    blob_start: usize,
    files: Vec<ArchiveFileEntry>,
    folder_leaves: Vec<ArchiveFolderLeafEntry>,
    block_infos: Vec<ArchiveBlockInfo>,
}

impl ArchiveReader {
    /// The archive bytes this reader was opened on.
    pub closed spec fn bytes(&self) -> Seq<u8> {
        self.archive@
    }

    /// The hydrated index tables.
    pub closed spec fn ix(&self) -> IndexV {
        IndexV {
            files: file_rows_view(self.files@),
            leaves: leaf_rows_view(self.folder_leaves@),
            blocks: block_rows_view(self.block_infos@),
        }
    }

    /// The reader's spill threshold.
    pub closed spec fn spill_threshold(&self) -> int {
        self.max_mem_extract_size as int
    }

    /// A well-formed reader: its tables are exactly the model of its bytes.
    pub closed spec fn wf(&self) -> bool {
        &&& spec_archive_model(self.archive@) == Some(self.ix())
        &&& self.blob_start == spec_blob_start(self.archive@)
        &&& self.max_mem_extract_size >= 0
    }

    /// Opens an archive from its bytes: parses the length prefix,
    /// LZ4-decompresses and decodes the index, and validates it.  Succeeds
    /// exactly on well-formed archives (`spec_archive_model`).
    pub fn new(archive: Vec<u8>, max_mem_extract_size: Option<u64>) -> (r: Result<
        ArchiveReader,
        ArchiveError,
    >)
        ensures
            r matches Ok(rd) ==> rd.wf() && rd.bytes() == archive@ && spec_archive_model(archive@)
                == Some(rd.ix()),
            r matches Ok(rd) ==> rd.spill_threshold() == spec_threshold(max_mem_extract_size),
            r matches Err(e) ==> spec_archive_model(archive@) is None,
            r matches Err(e) ==> (e matches ArchiveError::BadArchive { .. } || e
                matches ArchiveError::CodecFailure { .. }),
            archive@.len() < 8 ==> (r matches Err(e) && (e matches ArchiveError::BadArchive {
                reason,
            } && reason@ == "header too short"@)),
            archive@.len() >= 8 && spec_blob_start(archive@) > archive@.len() ==> (r matches Err(e)
                && e matches ArchiveError::BadArchive { .. }),
            (spec_open_index(archive@) matches Some(ix2) && !spec_index_valid(
                archive@,
                ix2,
            )) ==> (r matches Err(e) && e matches ArchiveError::BadArchive { .. }),
    {
        let mm: i64 = match max_mem_extract_size {
            None => DEFAULT_MAX_MEM_EXTRACT_SIZE as i64,
            Some(v) => if v > i64::MAX as u64 {
                i64::MAX
            } else {
                v as i64
            },
        };
        if archive.len() < crate::HEADER_LEN_BYTES {
            return Err(bad_archive("header too short"));
        }
        let (hl, _after) = match read_u64(archive.as_slice(), 0) {
            Some(v) => v,
            None => { return Err(bad_archive("header too short")) },
        };
        proof {
            assert(archive@.skip(0).take(8) =~= archive@.take(8));
            assert(spec_header_len(archive@) == hl as int);
        }
        if hl > (archive.len() - 8) as u64 {
            return Err(bad_archive("header length exceeds file size"));
        }
        let bs: usize = 8 + hl as usize;
        let ci = slice_subrange(archive.as_slice(), 8, bs);
        proof {
            assert(ci@ == archive@.subrange(8, spec_blob_start(archive@)));
        }
        let db = match decompress_with(ci, Codec::Lz4) {
            Ok(d) => d,
            Err(e) => {
                proof {
                    assert(spec_open_index(archive@) is None);
                }
                return Err(e);
            },
        };
        let (files, folder_leaves, block_infos) = match decode_index(db.as_slice()) {
            Ok(t) => t,
            Err(_) => {
                proof {
                    assert(spec_open_index(archive@) is None);
                }
                return Err(bad_archive("index schema load failed"));
            },
        };
        let ghost ix = IndexV {
            files: file_rows_view(files@),
            leaves: leaf_rows_view(folder_leaves@),
            blocks: block_rows_view(block_infos@),
        };
        proof {
            assert(spec_open_index(archive@) == Some(ix));
        }
        if !check_blocks(&block_infos, bs, archive.len()) {
            proof {
                assert(!spec_index_valid(archive@, ix));
            }
            return Err(bad_archive("block count or offset inconsistency"));
        }
        if !check_files(&files, block_infos.len()) {
            proof {
                assert(!spec_index_valid(archive@, ix));
            }
            return Err(bad_archive("file row inconsistency"));
        }
        if !file_names_unique(&files) {
            proof {
                assert(!spec_index_valid(archive@, ix));
            }
            return Err(bad_archive("duplicate file names"));
        }
        if !leaf_names_unique(&folder_leaves) {
            proof {
                assert(!spec_index_valid(archive@, ix));
            }
            return Err(bad_archive("duplicate leaf names"));
        }
        let rd = ArchiveReader {
            archive,
            max_mem_extract_size: mm,
            blob_start: bs,
            files,
            folder_leaves,
            block_infos,
        };
        proof {
            assert(spec_index_valid(rd.archive@, ix));
            assert(spec_archive_model(rd.archive@) == Some(rd.ix()));
        }
        Ok(rd)
    }
}


/// One extracted entry: its archive name and its restored bytes.
#[derive(Debug, Clone, PartialEq, Eq)]
pub struct ExtractedFile {
    pub name: String,
    pub data: Vec<u8>,
}

/// Spec-level model of an extracted entry.
pub ghost struct ExtractedFileV {
    pub name: Seq<char>,
    pub data: Seq<u8>,
}

impl View for ExtractedFile {
    type V = ExtractedFileV;

    open spec fn view(&self) -> ExtractedFileV {
        ExtractedFileV { name: self.name@, data: self.data@ }
    }
}

/// Everything an archive restores: file entries and leaf-directory names.
pub struct ArchiveContents {
    pub files: Vec<ExtractedFile>,
    pub leaves: Vec<String>,
}

/// The name maps to a row whose block slice is exactly `data`.
pub open spec fn archive_output_ok(
    bytes: Seq<u8>,
    ix: IndexV,
    name: Seq<char>,
    data: Seq<u8>,
) -> bool {
    match spec_find_file(ix.files, name) {
        None => false,
        Some(row) => spec_content_of(bytes, ix, row) == Some(data),
    }
}

/// A bulk-extraction result is sound and complete for the selection: every
/// produced entry is a selected file restored exactly, and every selected
/// file appears.
pub open spec fn extraction_ok(
    bytes: Seq<u8>,
    ix: IndexV,
    selected: Seq<bool>,
    out: Seq<ExtractedFile>,
) -> bool {
    &&& forall|t: int|
        0 <= t < out.len() ==> archive_output_ok(
            bytes,
            ix,
            (#[trigger] out[t])@.name,
            out[t]@.data,
        )
    &&& forall|t: int|
        0 <= t < out.len() ==> some_selected_file(ix, selected, (#[trigger] out[t])@.name)
    &&& forall|i: int|
        0 <= i < selected.len() && selected[i] ==> exists|t: int|
            0 <= t < out.len() && (#[trigger] out[t])@.name == ix.files[i].name
}

/// Every selected file row's content is available: its block decompresses
/// and its byte range lies inside the payload.
pub open spec fn selection_extractable(bytes: Seq<u8>, ix: IndexV, selected: Seq<bool>) -> bool {
    forall|i: int|
        0 <= i < selected.len() && selected[i] ==> spec_content_of(
            bytes,
            ix,
            #[trigger] ix.files[i],
        ) is Some
}

/// In an extractable selection, any block holding a selected file
/// decompresses.
proof fn lemma_extractable_block(bytes: Seq<u8>, ix: IndexV, selected: Seq<bool>, b: int)
    requires
        selection_extractable(bytes, ix, selected),
        selected.len() == ix.files.len(),
        exists|i: int|
            0 <= i < ix.files.len() && selected[i] && (#[trigger] ix.files[i]).block == b,
    ensures
        spec_block_raw(bytes, ix, b) is Some,
{
    let i = choose|i: int|
        0 <= i < ix.files.len() && selected[i] && (#[trigger] ix.files[i]).block == b;
    assert(spec_content_of(bytes, ix, ix.files[i]) is Some);
}

/// In an extractable selection, every selected file's range lies inside its
/// block's payload.
proof fn lemma_extractable_range(
    bytes: Seq<u8>,
    ix: IndexV,
    selected: Seq<bool>,
    i: int,
    raw: Seq<u8>,
)
    requires
        selection_extractable(bytes, ix, selected),
        selected.len() == ix.files.len(),
        0 <= i < ix.files.len(),
        selected[i],
        spec_block_raw(bytes, ix, ix.files[i].block) == Some(raw),
    ensures
        0 <= ix.files[i].offset && ix.files[i].offset + ix.files[i].size <= raw.len(),
{
    assert(spec_content_of(bytes, ix, ix.files[i]) is Some);
}

/// Some selected file row carries this name.
pub open spec fn some_selected_file(ix: IndexV, selected: Seq<bool>, name: Seq<char>) -> bool {
    exists|i: int|
        0 <= i < ix.files.len() && 0 <= i < selected.len() && selected[i] && (
        #[trigger] ix.files[i]).name == name
}

/// Selective extraction equivalence: any two extractions that restore the
/// same name from the same archive produce bit-identical bytes, because both
/// equal the slice the index names.
pub proof fn lemma_selective_extraction_equivalence(
    bytes: Seq<u8>,
    ix: IndexV,
    name: Seq<char>,
    d1: Seq<u8>,
    d2: Seq<u8>,
)
    requires
        archive_output_ok(bytes, ix, name, d1),
        archive_output_ok(bytes, ix, name, d2),
    ensures
        d1 == d2,
{
}

impl ArchiveReader {
    /// Number of file rows in the index.
    pub fn file_count(&self) -> (r: usize)
        ensures
            r == self.ix().files.len(),
    {
        proof {
            assert(file_rows_view(self.files@).len() == self.files@.len());
        }
        self.files.len()
    }

    /// The leaf rows of the index.
    pub fn leaf_rows(&self) -> (r: &Vec<ArchiveFolderLeafEntry>)
        ensures
            leaf_rows_view(r@) == self.ix().leaves,
            forall|k: int| 0 <= k < r@.len() ==> (#[trigger] self.ix().leaves[k]).name == r@[k].name@,
    {
        proof {
            assert forall|k: int| 0 <= k < self.folder_leaves@.len() implies (
            #[trigger] self.ix().leaves[k]).name == self.folder_leaves@[k].name@ by {
                assert(leaf_rows_view(self.folder_leaves@)[k] == self.folder_leaves@[k]@);
            }
        }
        &self.folder_leaves
    }

    /// Number of blocks in the index.
    pub fn block_count(&self) -> (r: usize)
        ensures
            r == self.ix().blocks.len(),
    {
        proof {
            assert(block_rows_view(self.block_infos@).len() == self.block_infos@.len());
        }
        self.block_infos.len()
    }

    /// A copy of one block row (offsets are blob-relative).
    pub fn block_entry(&self, b: usize) -> (r: ArchiveBlockInfo)
        requires
            b < self.ix().blocks.len(),
        ensures
            r@ == self.ix().blocks[b as int],
    {
        proof {
            assert(block_rows_view(self.block_infos@)[b as int] == self.block_infos@[b as int]@);
        }
        let info = &self.block_infos[b];
        ArchiveBlockInfo {
            id: info.id,
            size: info.size,
            offset: info.offset,
            compression_type: info.compression_type.clone(),
        }
    }

    /// A copy of the file row with this name, if any.
    pub fn file_entry(&self, name: &str) -> (r: Option<ArchiveFileEntry>)
        ensures
            match r {
                Some(row) => spec_find_file(self.ix().files, name@) == Some(row@),
                None => spec_find_file(self.ix().files, name@) is None,
            },
    {
        let nm = String::from_str(name);
        match find_file_row(&self.files, &nm) {
            None => None,
            Some(row) => Some(
                ArchiveFileEntry {
                    name: row.name.clone(),
                    block: row.block,
                    offset: row.offset,
                    size: row.size,
                },
            ),
        }
    }

    /// Reads and decompresses one block: opens the block's byte range inside
    /// the archive and feeds it to the block's codec.
    #[verifier::rlimit(90)]
    fn read_block_raw(&self, b: usize) -> (r: Result<Vec<u8>, ArchiveError>)
        requires
            self.wf(),
            b < self.ix().blocks.len(),
        ensures
            r matches Ok(raw) ==> spec_block_raw(self.bytes(), self.ix(), b as int) == Some(raw@),
            r is Err ==> spec_block_raw(self.bytes(), self.ix(), b as int) is None,
            r matches Err(e) ==> e matches ArchiveError::CodecFailure { .. },
    {
        let info = &self.block_infos[b];
        proof {
            assert(block_rows_view(self.block_infos@)[b as int] == self.block_infos@[b as int]@);
            assert(spec_index_valid(self.archive@, self.ix()));
            assert(self.blob_start + self.ix().blocks[b as int].offset
                + self.ix().blocks[b as int].size <= self.archive@.len());
            assert(crate::index::nonneg_block_row(self.ix().blocks[b as int])) by {
                assert(contiguous_blocks(self.ix().blocks));
                crate::layout::lemma_blocks_nonneg_offsets(self.ix().blocks, b as int);
            }
        }
        let alen = self.archive.len();
        proof {
            assert(alen == self.archive@.len());
            assert(0 <= info@.offset && 0 <= info@.size);
            assert(self.blob_start + info@.offset + info@.size <= alen as int);
        }
        let off: usize = self.blob_start + info.offset as usize;
        let end: usize = off + info.size as usize;
        let comp = slice_subrange(self.archive.as_slice(), off, end);
        proof {
            assert(comp@ =~= spec_block_comp_bytes(self.archive@, self.ix(), b as int));
        }
        let codec = match parse_codec(info.compression_type.as_str()) {
            Some(c) => c,
            None => {
                proof {
                    assert(spec_codec_of_label(
                        self.ix().blocks[b as int].compression_type,
                    ) is Some);
                    assert(false);
                }
                return Err(
                    ArchiveError::CodecFailure {
                        stage: String::from_str("init"),
                        codec: info.compression_type.clone(),
                        cause: String::from_str("unsupported label"),
                    },
                );
            },
        };
        decompress_with(comp, codec)
    }

    /// Whether the compressed block is larger than the spill threshold, so a
    /// streaming caller should decompress it to a temporary file rather than
    /// memory.
    pub fn block_spills(&self, b: usize) -> (r: bool)
        requires
            self.wf(),
            b < self.ix().blocks.len(),
        ensures
            r == (self.ix().blocks[b as int].size > self.spill_threshold()),
    {
        proof {
            assert(block_rows_view(self.block_infos@)[b as int] == self.block_infos@[b as int]@);
        }
        self.block_infos[b].size > self.max_mem_extract_size
    }

    /// Extracts one file: looks its row up, decompresses its block, and
    /// slices out its byte range.
    pub fn extract_file(&self, name: &str) -> (r: Result<Vec<u8>, ArchiveError>)
        requires
            self.wf(),
        ensures
            (spec_find_file(self.ix().files, name@) is None) <==> (r matches Err(e) && (e
                matches ArchiveError::FileNotFound { name: n } && n@ == name@)),
            spec_find_file(self.ix().files, name@) matches Some(row) ==> {
                &&& (r matches Ok(data) ==> spec_content_of(self.bytes(), self.ix(), row) == Some(
                    data@,
                ))
                &&& (spec_content_of(self.bytes(), self.ix(), row) is Some ==> r is Ok)
                &&& (r matches Err(e) ==> (e matches ArchiveError::CodecFailure { .. } || e
                    matches ArchiveError::BadArchive { .. }))
            },
    {
        let nm = String::from_str(name);
        let row = match find_file_row(&self.files, &nm) {
            None => { return Err(ArchiveError::FileNotFound { name: nm }) },
            Some(row) => row,
        };
        let nb = self.block_infos.len();
        proof {
            crate::layout::lemma_find_file_exists(self.ix().files, name@);
            let j = choose|j: int|
                0 <= j < self.ix().files.len() && #[trigger] self.ix().files[j] == row@;
            assert(spec_index_valid(self.archive@, self.ix()));
            assert(valid_file_row(self.ix().files[j], self.ix().blocks.len() as int));
            assert(self.ix().blocks.len() == self.block_infos@.len());
            assert(0 <= row@.block < nb as int);
        }
        let b = row.block as usize;
        proof {
            assert(b as int == row@.block);
        }
        let raw = match self.read_block_raw(b) {
            Ok(rw) => rw,
            Err(e) => { return Err(e) },
        };
        if row.offset as u64 > raw.len() as u64 || row.size as u64 > raw.len() as u64 - (row.offset
            as u64) {
            return Err(bad_archive("file range outside its block"));
        }
        let off = row.offset as usize;
        let end = off + row.size as usize;
        proof {
            assert(0 <= row@.offset);
            assert(0 <= row@.size);
            assert(row@.offset + row@.size <= raw@.len());
            assert(off as int == row@.offset);
            assert(end as int == row@.offset + row@.size);
        }
        let out = slice_to_vec(slice_subrange(raw.as_slice(), off, end));
        proof {
            assert(spec_block_raw(self.bytes(), self.ix(), row@.block) == Some(raw@));
            assert(out@ == raw@.subrange(row@.offset, row@.offset + row@.size));
            assert(spec_content_of(self.bytes(), self.ix(), row@) == Some(out@));
        }
        Ok(out)
    }
}


impl ArchiveReader {
    /// Whether any selected file lives in block `b`.
    fn block_needed(&self, selected: &Vec<bool>, b: usize) -> (r: bool)
        requires
            selected@.len() == self.ix().files.len(),
        ensures
            r == exists|i: int|
                0 <= i < self.ix().files.len() && selected@[i] && (
                #[trigger] self.ix().files[i]).block == b as int,
    {
                let mut i: usize = 0;
        while i < self.files.len()
            invariant
                i <= self.files@.len(),
                self.ix().files == file_rows_view(self.files@),
                self.ix().files.len() == self.files@.len(),
                selected@.len() == self.ix().files.len(),
                forall|j: int| 0 <= j < self.files@.len() ==> self.ix().files[j] == self.files@[j]@,
                forall|j: int|
                    0 <= j < i ==> !(selected@[j] && (#[trigger] self.ix().files[j]).block == b as int),
            decreases self.files@.len() - i,
        {
            if selected[i] && self.files[i].block >= 0 && self.files[i].block as u64 == b as u64 {
                proof {
                    assert(self.ix().files[i as int] == self.files@[i as int]@);
                    assert(selected@[i as int] && self.ix().files[i as int].block == b as int);
                }
                return true;
            }
            proof {
                assert(self.ix().files[i as int] == self.files@[i as int]@);
            }
            i += 1;
        }
        false
    }

    /// Extracts every selected file, decompressing each needed block exactly
    /// once: blocks are visited in id order and each selected file of the
    /// block is sliced from the one decompressed payload.
    #[verifier::rlimit(100)]
    fn extract_selected(&self, selected: &Vec<bool>) -> (r: Result<Vec<ExtractedFile>, ArchiveError>)
        requires
            self.wf(),
            selected@.len() == self.ix().files.len(),
        ensures
            r matches Ok(out) ==> extraction_ok(self.bytes(), self.ix(), selected@, out@),
            selection_extractable(self.bytes(), self.ix(), selected@) ==> r is Ok,
            r matches Err(e) ==> e matches ArchiveError::ExtractFailed { .. },
    {
                let mut out: Vec<ExtractedFile> = Vec::new();
        let nblocks = self.block_count();
        let mut b: usize = 0;
        while b < nblocks
            invariant
                self.wf(),
                selected@.len() == self.ix().files.len(),
                b <= nblocks,
                nblocks == self.ix().blocks.len(),
                                forall|t: int|
                    0 <= t < out@.len() ==> archive_output_ok(
                        self.bytes(),
                        self.ix(),
                        (#[trigger] out@[t])@.name,
                        out@[t]@.data,
                    ),
                forall|t: int|
                    0 <= t < out@.len() ==> some_selected_file(
                        self.ix(),
                        selected@,
                        (#[trigger] out@[t])@.name,
                    ),
                forall|i: int|
                    0 <= i < selected@.len() && selected@[i] && (#[trigger] self.ix().files[i]).block
                        < b ==> exists|t: int|
                        0 <= t < out@.len() && (#[trigger] out@[t])@.name == self.ix().files[i].name,
            decreases nblocks - b,
        {
            if self.block_needed(selected, b) {
                let raw = match self.read_block_raw(b) {
                    Ok(rw) => rw,
                    Err(e) => {
                        proof {
                            if selection_extractable(self.bytes(), self.ix(), selected@) {
                                lemma_extractable_block(
                                    self.bytes(),
                                    self.ix(),
                                    selected@,
                                    b as int,
                                );
                            }
                        }
                        return Err(
                            ArchiveError::ExtractFailed {
                                name: String::from_str("block"),
                                cause: e.message(),
                            },
                        );
                    },
                };
                let mut i: usize = 0;
                while i < self.files.len()
                    invariant
                        self.wf(),
                        selected@.len() == self.ix().files.len(),
                        b < nblocks,
                        nblocks == self.ix().blocks.len(),
                                                self.ix().files.len() == self.files@.len(),
                        forall|j: int| 0 <= j < self.files@.len() ==> self.ix().files[j] == self.files@[j]@,
                        i <= self.files@.len(),
                        spec_block_raw(self.bytes(), self.ix(), b as int) == Some(raw@),
                        forall|t: int|
                            0 <= t < out@.len() ==> archive_output_ok(
                                self.bytes(),
                                self.ix(),
                                (#[trigger] out@[t])@.name,
                                out@[t]@.data,
                            ),
                        forall|t: int|
                            0 <= t < out@.len() ==> some_selected_file(
                                self.ix(),
                                selected@,
                                (#[trigger] out@[t])@.name,
                            ),
                        forall|j: int|
                            0 <= j < selected@.len() && selected@[j] && (#[trigger] self.ix().files[j]).block
                                < b ==> exists|t: int|
                                0 <= t < out@.len() && (#[trigger] out@[t])@.name == self.ix().files[j].name,
                        forall|j: int|
                            0 <= j < i && selected@[j] && (#[trigger] self.ix().files[j]).block
                                == b ==> exists|t: int|
                                0 <= t < out@.len() && (#[trigger] out@[t])@.name == self.ix().files[j].name,
                    decreases self.files@.len() - i,
                {
                    let row = &self.files[i];
                    proof {
                        assert(self.ix().files[i as int] == self.files@[i as int]@);
                    }
                    if selected[i] && row.block >= 0 && row.block as u64 == b as u64 {
                        if row.offset as u64 > raw.len() as u64 || row.size as u64 > raw.len()
                            as u64 - (row.offset as u64) {
                            proof {
                                if selection_extractable(self.bytes(), self.ix(), selected@) {
                                    assert(self.ix().files[i as int].block == b as int);
                                    lemma_extractable_range(
                                        self.bytes(),
                                        self.ix(),
                                        selected@,
                                        i as int,
                                        raw@,
                                    );
                                }
                            }
                            return Err(
                                ArchiveError::ExtractFailed {
                                    name: row.name.clone(),
                                    cause: String::from_str("file range outside its block"),
                                },
                            );
                        }
                        proof {
                            assert(spec_index_valid(self.archive@, self.ix()));
                            assert(valid_file_row(self.ix().files[i as int], self.ix().blocks.len() as int));
                        }
                        let off = row.offset as usize;
                        let end = off + row.size as usize;
                        let data = slice_to_vec(slice_subrange(raw.as_slice(), off, end));
                        let ghost pre = out@;
                        out.push(ExtractedFile { name: row.name.clone(), data });
                        proof {
                            let t = out@.len() - 1;
                            assert(out@[t]@.name == self.ix().files[i as int].name);
                            crate::layout::lemma_find_file_unique(self.ix().files, i as int);
                            assert(spec_find_file(self.ix().files, self.ix().files[i as int].name) == Some(self.ix().files[i as int]));
                            assert(out@[t]@.data == raw@.subrange(
                                self.ix().files[i as int].offset,
                                self.ix().files[i as int].offset + self.ix().files[i as int].size,
                            ));
                            assert(self.ix().files[i as int].block == b as int);
                            assert(spec_content_of(self.bytes(), self.ix(), self.ix().files[i as int]) == Some(
                                out@[t]@.data,
                            ));
                            assert(archive_output_ok(
                                self.bytes(),
                                self.ix(),
                                out@[t]@.name,
                                out@[t]@.data,
                            ));
                            assert(some_selected_file(self.ix(), selected@, out@[t]@.name)) by {
                                let ii = i as int;
                                assert(0 <= ii && ii < self.ix().files.len() && selected@[ii] && self.ix().files[ii].name
                                    == out@[t]@.name);
                            }
                            assert forall|t2: int| 0 <= t2 < pre.len() implies out@[t2] == pre[t2]
                                by {}
                        }
                    }
                    i += 1;
                }
            } else {
                proof {
                    assert forall|j: int|
                        0 <= j < selected@.len() && selected@[j] && (#[trigger] self.ix().files[j]).block
                            < b + 1 implies exists|t: int|
                        0 <= t < out@.len() && (#[trigger] out@[t])@.name == self.ix().files[j].name by {
                        if self.ix().files[j].block == b as int {
                            assert(exists|i2: int|
                                0 <= i2 < self.ix().files.len() && selected@[i2] && (
                                #[trigger] self.ix().files[i2]).block == b as int);
                        }
                    }
                }
            }
            b += 1;
        }
        proof {
            assert forall|i: int| 0 <= i < selected@.len() && selected@[i] implies exists|t: int|
                0 <= t < out@.len() && (#[trigger] out@[t])@.name == self.ix().files[i].name by {
                assert(spec_index_valid(self.archive@, self.ix()));
                assert(valid_file_row(self.ix().files[i], self.ix().blocks.len() as int));
                assert(self.ix().files[i].block < nblocks as int);
            }
            assert(forall|t: int|
                0 <= t < out@.len() ==> archive_output_ok(
                    self.bytes(),
                    self.ix(),
                    (#[trigger] out@[t])@.name,
                    out@[t]@.data,
                ));
            assert(forall|t: int|
                0 <= t < out@.len() ==> some_selected_file(
                    self.ix(),
                    selected@,
                    (#[trigger] out@[t])@.name,
                ));
            assert(extraction_ok(self.bytes(), self.ix(), selected@, out@));
        }
        Ok(out)
    }
}


/// The file names of an index, in row order.
pub open spec fn file_names(ix: IndexV) -> Seq<Seq<char>> {
    ix.files.map_values(|r: FileRowV| r.name)
}

/// The leaf-directory names of an index, in row order.
pub open spec fn leaf_names(ix: IndexV) -> Seq<Seq<char>> {
    ix.leaves.map_values(|r: LeafRowV| r.name)
}

/// Every listed block holds at least one matching file.
pub open spec fn blocks_cover(ix: IndexV, p: Seq<char>, bs: Seq<i64>) -> bool {
    forall|t: int|
        0 <= t < bs.len() ==> exists|i: int|
            0 <= i < ix.files.len() && regex_matches(p, (#[trigger] ix.files[i]).name)
                && ix.files[i].block == (#[trigger] bs[t]) as int
}

/// Every matching file's block is listed.
pub open spec fn blocks_complete(ix: IndexV, p: Seq<char>, bs: Seq<i64>) -> bool {
    forall|i: int|
        0 <= i < ix.files.len() && regex_matches(p, (#[trigger] ix.files[i]).name) ==> exists|
            t: int,
        |
            0 <= t < bs.len() && (#[trigger] bs[t]) as int == ix.files[i].block
}

/// Appending a block that holds a matching file keeps the listed blocks
/// covering and extends completeness to that block.
proof fn lemma_matching_blocks_push(ix: IndexV, p: Seq<char>, pre: Seq<i64>, out: Seq<i64>, b: int)
    requires
        0 <= b <= i64::MAX,
        out == pre.push(b as i64),
        blocks_cover(ix, p, pre),
        forall|i: int|
            0 <= i < ix.files.len() && regex_matches(p, (#[trigger] ix.files[i]).name)
                && ix.files[i].block < b ==> exists|t: int|
                0 <= t < pre.len() && (#[trigger] pre[t]) as int == ix.files[i].block,
        exists|i: int|
            0 <= i < ix.files.len() && regex_matches(p, (#[trigger] ix.files[i]).name)
                && ix.files[i].block == b,
    ensures
        blocks_cover(ix, p, out),
        forall|i: int|
            0 <= i < ix.files.len() && regex_matches(p, (#[trigger] ix.files[i]).name)
                && ix.files[i].block < b + 1 ==> exists|t: int|
                0 <= t < out.len() && (#[trigger] out[t]) as int == ix.files[i].block,
{
    let t = out.len() - 1;
    assert(out[t] == b as i64);
    let iw = choose|i: int|
        0 <= i < ix.files.len() && regex_matches(p, (#[trigger] ix.files[i]).name) && ix.files[i].block == b;
    assert forall|t2: int| 0 <= t2 < out.len() implies exists|i2: int|
        0 <= i2 < ix.files.len() && regex_matches(p, (#[trigger] ix.files[i2]).name)
            && ix.files[i2].block == (#[trigger] out[t2]) as int by {
        if t2 < pre.len() {
            assert(out[t2] == pre[t2]);
            let i2 = choose|i2: int|
                0 <= i2 < ix.files.len() && regex_matches(p, (#[trigger] ix.files[i2]).name)
                    && ix.files[i2].block == pre[t2] as int;
            assert(regex_matches(p, ix.files[i2].name) && ix.files[i2].block == out[t2] as int);
        } else {
            assert(regex_matches(p, ix.files[iw].name) && ix.files[iw].block == out[t2] as int);
        }
    }
    assert forall|i: int|
        0 <= i < ix.files.len() && regex_matches(p, (#[trigger] ix.files[i]).name) && ix.files[i].block < b + 1 implies exists|t2: int|
        0 <= t2 < out.len() && (#[trigger] out[t2]) as int == ix.files[i].block by {
        if ix.files[i].block < b {
            let t2 = choose|t2: int|
                0 <= t2 < pre.len() && (#[trigger] pre[t2]) as int == ix.files[i].block;
            assert(out[t2] == pre[t2]);
        } else {
            assert(out[t] as int == ix.files[i].block);
        }
    }
}

/// The selection a pattern induces over the file rows.
pub open spec fn match_sel(ix: IndexV, p: Seq<char>) -> Seq<bool> {
    Seq::new(ix.files.len(), |i: int| regex_matches(p, ix.files[i].name))
}

/// The filter of the empty sequence is empty.
proof fn lemma_filter_empty<A>(pred: spec_fn(A) -> bool)
    ensures
        Seq::<A>::empty().filter(pred) == Seq::<A>::empty(),
{
    reveal_with_fuel(Seq::filter, 2);
}

/// Filtering distributes over appending one element.
proof fn lemma_filter_push<A>(s: Seq<A>, x: A, pred: spec_fn(A) -> bool)
    ensures
        (s.push(x)).filter(pred) == (if pred(x) {
            s.filter(pred).push(x)
        } else {
            s.filter(pred)
        }),
{
    reveal_with_fuel(Seq::filter, 2);
    assert(s.push(x).drop_last() =~= s);
    assert(s.push(x).last() == x);
    assert(s.push(x).len() == s.len() + 1);
}

impl ArchiveReader {
    /// All file names followed by all leaf-directory names.
    pub fn list_all_entries(&self) -> (r: Vec<String>)
        ensures
            names_view(r@) == file_names(self.ix()) + leaf_names(self.ix()),
    {
        let mut out: Vec<String> = Vec::new();
        let ghost fnames = file_names(self.ix());
        let ghost lnames = leaf_names(self.ix());
        proof {
            assert(names_view(out@) =~= fnames.take(0));
        }
        let mut i: usize = 0;
        while i < self.files.len()
            invariant
                i <= self.files@.len(),
                fnames == file_names(self.ix()),
                fnames.len() == self.files@.len(),
                forall|j: int| 0 <= j < self.files@.len() ==> fnames[j] == self.files@[j].name@,
                names_view(out@) == fnames.take(i as int),
            decreases self.files@.len() - i,
        {
            let ghost pre = names_view(out@);
            out.push(self.files[i].name.clone());
            proof {
                assert(names_view(out@) =~= pre.push(out@[out@.len() - 1]@));
                assert(fnames.take(i + 1) =~= fnames.take(i as int).push(fnames[i as int]));
                assert(names_view(out@) =~= fnames.take(i + 1));
            }
            i += 1;
        }
        proof {
            assert(fnames.take(fnames.len() as int) =~= fnames);
            assert(names_view(out@) =~= fnames + lnames.take(0));
        }
        let mut j: usize = 0;
        while j < self.folder_leaves.len()
            invariant
                j <= self.folder_leaves@.len(),
                fnames == file_names(self.ix()),
                lnames == leaf_names(self.ix()),
                lnames.len() == self.folder_leaves@.len(),
                forall|k: int|
                    0 <= k < self.folder_leaves@.len() ==> lnames[k]
                        == self.folder_leaves@[k].name@,
                names_view(out@) == fnames + lnames.take(j as int),
            decreases self.folder_leaves@.len() - j,
        {
            let ghost pre = names_view(out@);
            out.push(self.folder_leaves[j].name.clone());
            proof {
                assert(names_view(out@) =~= pre.push(out@[out@.len() - 1]@));
                assert(lnames.take(j + 1) =~= lnames.take(j as int).push(lnames[j as int]));
                assert(names_view(out@) =~= fnames + lnames.take(j + 1));
            }
            j += 1;
        }
        proof {
            assert(lnames.take(lnames.len() as int) =~= lnames);
        }
        out
    }

    /// File names then leaf names, restricted to those the pattern matches;
    /// an invalid pattern yields `BadPattern`.
    pub fn list_entries(&self, regex_pattern: &str) -> (r: Result<Vec<String>, ArchiveError>)
        ensures
            r matches Ok(names) ==> regex_valid(regex_pattern@) && names_view(names@) == file_names(
                self.ix(),
            ).filter(|n: Seq<char>| regex_matches(regex_pattern@, n)) + leaf_names(
                self.ix(),
            ).filter(|n: Seq<char>| regex_matches(regex_pattern@, n)),
            r matches Err(e) ==> !regex_valid(regex_pattern@) && (e
                matches ArchiveError::BadPattern { .. }),
    {
        let pat = match Pattern::compile(regex_pattern) {
            Ok(p) => p,
            Err(cause) => { return Err(ArchiveError::BadPattern { source: cause }) },
        };
        let ghost pred = |n: Seq<char>| regex_matches(regex_pattern@, n);
        let ghost fnames = file_names(self.ix());
        let ghost lnames = leaf_names(self.ix());
        let mut out: Vec<String> = Vec::new();
        proof {
            lemma_filter_empty::<Seq<char>>(pred);
            assert(fnames.take(0).filter(pred) =~= Seq::<Seq<char>>::empty());
            assert(names_view(out@) =~= fnames.take(0).filter(pred));
        }
        let mut i: usize = 0;
        while i < self.files.len()
            invariant
                i <= self.files@.len(),
                pat@ == regex_pattern@,
                pred == (|n: Seq<char>| regex_matches(regex_pattern@, n)),
                fnames == file_names(self.ix()),
                fnames.len() == self.files@.len(),
                forall|j: int| 0 <= j < self.files@.len() ==> fnames[j] == self.files@[j].name@,
                names_view(out@) == fnames.take(i as int).filter(pred),
            decreases self.files@.len() - i,
        {
            let ghost pre = names_view(out@);
            if pat.is_match(self.files[i].name.as_str()) {
                out.push(self.files[i].name.clone());
                proof {
                    assert(names_view(out@) =~= pre.push(out@[out@.len() - 1]@));
                }
            }
            proof {
                lemma_filter_push(fnames.take(i as int), fnames[i as int], pred);
                assert(fnames.take(i + 1) =~= fnames.take(i as int).push(fnames[i as int]));
                assert(names_view(out@) =~= fnames.take(i + 1).filter(pred));
            }
            i += 1;
        }
        proof {
            assert(fnames.take(fnames.len() as int) =~= fnames);
            lemma_filter_empty::<Seq<char>>(pred);
            assert(lnames.take(0).filter(pred) =~= Seq::<Seq<char>>::empty());
            assert(names_view(out@) =~= fnames.filter(pred) + lnames.take(0).filter(pred));
        }
        let mut j: usize = 0;
        while j < self.folder_leaves.len()
            invariant
                j <= self.folder_leaves@.len(),
                pat@ == regex_pattern@,
                pred == (|n: Seq<char>| regex_matches(regex_pattern@, n)),
                fnames == file_names(self.ix()),
                lnames == leaf_names(self.ix()),
                lnames.len() == self.folder_leaves@.len(),
                forall|k: int|
                    0 <= k < self.folder_leaves@.len() ==> lnames[k]
                        == self.folder_leaves@[k].name@,
                names_view(out@) == fnames.filter(pred) + lnames.take(j as int).filter(pred),
            decreases self.folder_leaves@.len() - j,
        {
            let ghost pre = names_view(out@);
            if pat.is_match(self.folder_leaves[j].name.as_str()) {
                out.push(self.folder_leaves[j].name.clone());
                proof {
                    assert(names_view(out@) =~= pre.push(out@[out@.len() - 1]@));
                }
            }
            proof {
                lemma_filter_push(lnames.take(j as int), lnames[j as int], pred);
                assert(lnames.take(j + 1) =~= lnames.take(j as int).push(lnames[j as int]));
                assert(names_view(out@) =~= fnames.filter(pred) + lnames.take(j + 1).filter(pred));
            }
            j += 1;
        }
        proof {
            assert(lnames.take(lnames.len() as int) =~= lnames);
        }
        Ok(out)
    }

    /// Same as `list_entries`; the name the bindings use.
    pub fn list_entries_re(&self, re_pattern: &str) -> (r: Result<Vec<String>, ArchiveError>)
        ensures
            r matches Ok(names) ==> regex_valid(re_pattern@) && names_view(names@) == file_names(
                self.ix(),
            ).filter(|n: Seq<char>| regex_matches(re_pattern@, n)) + leaf_names(
                self.ix(),
            ).filter(|n: Seq<char>| regex_matches(re_pattern@, n)),
            r matches Err(e) ==> !regex_valid(re_pattern@) && (e
                matches ArchiveError::BadPattern { .. }),
    {
        self.list_entries(re_pattern)
    }

    /// Whether a leaf row with this name exists.
    fn has_leaf(&self, name: &String) -> (r: bool)
        ensures
            r == exists|i: int|
                0 <= i < self.ix().leaves.len() && (#[trigger] self.ix().leaves[i]).name == name@,
    {
        let mut i: usize = 0;
        while i < self.folder_leaves.len()
            invariant
                i <= self.folder_leaves@.len(),
                self.ix().leaves.len() == self.folder_leaves@.len(),
                forall|j: int|
                    0 <= j < self.folder_leaves@.len() ==> (#[trigger] self.ix().leaves[j]).name
                        == self.folder_leaves@[j].name@,
                forall|j: int| 0 <= j < i ==> (#[trigger] self.ix().leaves[j]).name != name@,
            decreases self.folder_leaves@.len() - i,
        {
            if self.folder_leaves[i].name == *name {
                proof {
                    assert((self.ix().leaves[i as int]).name == name@);
                }
                return true;
            }
            i += 1;
        }
        false
    }

    /// `"file"` for a file entry, `"dir"` for a leaf directory, nothing
    /// otherwise.
    pub fn entry_type(&self, name: &str) -> (r: Option<String>)
        ensures
            spec_find_file(self.ix().files, name@) is Some ==> (r matches Some(s) && s@
                == "file"@),
            (spec_find_file(self.ix().files, name@) is None && (exists|i: int|
                0 <= i < self.ix().leaves.len() && (#[trigger] self.ix().leaves[i]).name
                    == name@)) ==> (r matches Some(s) && s@ == "dir"@),
            (spec_find_file(self.ix().files, name@) is None && !(exists|i: int|
                0 <= i < self.ix().leaves.len() && (#[trigger] self.ix().leaves[i]).name
                    == name@)) ==> r is None,
    {
        let nm = String::from_str(name);
        if find_file_row(&self.files, &nm).is_some() {
            Some(String::from_str("file"))
        } else if self.has_leaf(&nm) {
            Some(String::from_str("dir"))
        } else {
            None
        }
    }

    /// The selection flags a compiled pattern induces over the file rows.
    fn match_flags(&self, pat: &Pattern) -> (r: Vec<bool>)
        ensures
            r@ == match_sel(self.ix(), pat@),
    {
        let mut flags: Vec<bool> = Vec::new();
        let mut i: usize = 0;
        while i < self.files.len()
            invariant
                i <= self.files@.len(),
                flags@.len() == i,
                self.ix().files.len() == self.files@.len(),
                forall|j: int|
                    0 <= j < self.files@.len() ==> (#[trigger] self.ix().files[j]).name
                        == self.files@[j].name@,
                forall|j: int|
                    0 <= j < i ==> flags@[j] == regex_matches(pat@, self.ix().files[j].name),
            decreases self.files@.len() - i,
        {
            flags.push(pat.is_match(self.files[i].name.as_str()));
            i += 1;
        }
        proof {
            assert(flags@ =~= match_sel(self.ix(), pat@));
        }
        flags
    }

    /// The distinct blocks that hold at least one file the pattern matches:
    /// a bulk extraction decompresses exactly these, each once.
    #[verifier::rlimit(100)]
    pub fn matching_blocks(&self, re_pattern: &str) -> (r: Result<Vec<i64>, ArchiveError>)
        requires
            self.wf(),
        ensures
            r matches Ok(bs) ==> {
                &&& forall|a: int, b: int| 0 <= a < b < bs@.len() ==> bs@[a] != bs@[b]
                &&& blocks_cover(self.ix(), re_pattern@, bs@)
                &&& blocks_complete(self.ix(), re_pattern@, bs@)
            },
            r matches Err(e) ==> !regex_valid(re_pattern@) && (e
                matches ArchiveError::BadPattern { .. }),
            regex_valid(re_pattern@) ==> r is Ok,
    {
        let pat = match Pattern::compile(re_pattern) {
            Ok(p) => p,
            Err(cause) => { return Err(ArchiveError::BadPattern { source: cause }) },
        };
        let flags = self.match_flags(&pat);
        proof {
            assert(flags@.len() == self.ix().files.len());
        }
        let nblocks = self.block_count();
        let mut out: Vec<i64> = Vec::new();
        let mut b: usize = 0;
        while b < nblocks
            invariant
                self.wf(),
                pat@ == re_pattern@,
                flags@ == match_sel(self.ix(), re_pattern@),
                flags@.len() == self.ix().files.len(),
                b <= nblocks,
                nblocks == self.ix().blocks.len(),
                forall|t: int| 0 <= t < out@.len() ==> 0 <= (#[trigger] out@[t]) < b as int,
                forall|a: int, t: int| 0 <= a < t < out@.len() ==> out@[a] < out@[t],
                blocks_cover(self.ix(), re_pattern@, out@),
                forall|i: int|
                    0 <= i < self.ix().files.len() && regex_matches(
                        re_pattern@,
                        (#[trigger] self.ix().files[i]).name,
                    ) && self.ix().files[i].block < b ==> exists|t: int|
                        0 <= t < out@.len() && (#[trigger] out@[t]) as int == self.ix().files[i].block,
            decreases nblocks - b,
        {
            if !self.block_needed(&flags, b) {
                proof {
                    assert forall|i2: int|
                        0 <= i2 < self.ix().files.len() && regex_matches(
                            re_pattern@,
                            (#[trigger] self.ix().files[i2]).name,
                        ) && self.ix().files[i2].block < b + 1 implies exists|t2: int|
                        0 <= t2 < out@.len() && (#[trigger] out@[t2]) as int == self.ix().files[i2].block by {
                        if self.ix().files[i2].block == b as int {
                            assert(flags@[i2] == regex_matches(
                                re_pattern@,
                                self.ix().files[i2].name,
                            ));
                            assert(exists|i3: int|
                                0 <= i3 < self.ix().files.len() && flags@[i3] && (
                                #[trigger] self.ix().files[i3]).block == b as int);
                            assert(false);
                        }
                    }
                }
            } else {
                proof {
                    assert(spec_index_valid(self.archive@, self.ix()));
                    assert(contiguous_blocks(self.ix().blocks));
                    crate::layout::lemma_blocks_nonneg_offsets(self.ix().blocks, b as int);
                    assert(self.ix().blocks[b as int].id == b as int);
                    assert(self.ix().blocks[b as int].id <= i64::MAX);
                }
                let ghost pre = out@;
                out.push(b as i64);
                proof {
                    let iw = choose|i: int|
                        0 <= i < self.ix().files.len() && flags@[i] && (
                        #[trigger] self.ix().files[i]).block == b as int;
                    assert(flags@[iw] == regex_matches(re_pattern@, self.ix().files[iw].name));
                    assert(exists|i: int|
                        0 <= i < self.ix().files.len() && regex_matches(
                            re_pattern@,
                            (#[trigger] self.ix().files[i]).name,
                        ) && self.ix().files[i].block == b as int);
                    lemma_matching_blocks_push(self.ix(), re_pattern@, pre, out@, b as int);
                    assert forall|t2: int| 0 <= t2 < pre.len() implies out@[t2] == pre[t2] by {}
                }
            }
            b += 1;
        }
        proof {
            assert forall|i2: int|
                0 <= i2 < self.ix().files.len() && regex_matches(
                    re_pattern@,
                    (#[trigger] self.ix().files[i2]).name,
                ) implies exists|t2: int|
                0 <= t2 < out@.len() && (#[trigger] out@[t2]) as int == self.ix().files[i2].block by {
                assert(spec_index_valid(self.archive@, self.ix()));
                assert(valid_file_row(self.ix().files[i2], self.ix().blocks.len() as int));
            }
            assert(blocks_complete(self.ix(), re_pattern@, out@));
        }
        Ok(out)
    }

    /// Bulk extraction: every file the pattern matches, restored exactly,
    /// together with the matching leaf-directory names.
    pub fn extract_files(&self, re_pattern: &str, ignore_errors: bool) -> (r: Result<
        ArchiveContents,
        ArchiveError,
    >)
        requires
            self.wf(),
        ensures
            r matches Ok(c) ==> extraction_ok(
                self.bytes(),
                self.ix(),
                match_sel(self.ix(), re_pattern@),
                c.files@,
            ) && names_view(c.leaves@) == leaf_names(self.ix()).filter(
                |n: Seq<char>| regex_matches(re_pattern@, n),
            ),
            r matches Err(e) ==> (e matches ArchiveError::BadPattern { .. } || e
                matches ArchiveError::ExtractFailed { .. }),
            (r matches Err(e) && e matches ArchiveError::BadPattern { .. }) ==> !regex_valid(
                re_pattern@,
            ),
            !regex_valid(re_pattern@) ==> (r matches Err(e) && e
                matches ArchiveError::BadPattern { .. }),
    {
        // Accepted for compatibility; extraction is strict and aborts on the
        // first failing entry.
        let _ = ignore_errors;
        let pat = match Pattern::compile(re_pattern) {
            Ok(p) => p,
            Err(cause) => { return Err(ArchiveError::BadPattern { source: cause }) },
        };
        let flags = self.match_flags(&pat);
        proof {
            assert(flags@.len() == self.ix().files.len());
        }
        let files = match self.extract_selected(&flags) {
            Ok(fs) => fs,
            Err(e) => { return Err(e) },
        };
        let ghost pred = |n: Seq<char>| regex_matches(re_pattern@, n);
        let ghost lnames = leaf_names(self.ix());
        let mut leaves: Vec<String> = Vec::new();
        proof {
            lemma_filter_empty::<Seq<char>>(pred);
            assert(lnames.take(0).filter(pred) =~= Seq::<Seq<char>>::empty());
            assert(names_view(leaves@) =~= lnames.take(0).filter(pred));
        }
        let mut j: usize = 0;
        while j < self.folder_leaves.len()
            invariant
                j <= self.folder_leaves@.len(),
                pat@ == re_pattern@,
                pred == (|n: Seq<char>| regex_matches(re_pattern@, n)),
                lnames == leaf_names(self.ix()),
                lnames.len() == self.folder_leaves@.len(),
                forall|k: int|
                    0 <= k < self.folder_leaves@.len() ==> lnames[k]
                        == self.folder_leaves@[k].name@,
                names_view(leaves@) == lnames.take(j as int).filter(pred),
            decreases self.folder_leaves@.len() - j,
        {
            let ghost pre = names_view(leaves@);
            if pat.is_match(self.folder_leaves[j].name.as_str()) {
                leaves.push(self.folder_leaves[j].name.clone());
                proof {
                    assert(names_view(leaves@) =~= pre.push(leaves@[leaves@.len() - 1]@));
                }
            }
            proof {
                lemma_filter_push(lnames.take(j as int), lnames[j as int], pred);
                assert(lnames.take(j + 1) =~= lnames.take(j as int).push(lnames[j as int]));
                assert(names_view(leaves@) =~= lnames.take(j + 1).filter(pred));
            }
            j += 1;
        }
        proof {
            assert(lnames.take(lnames.len() as int) =~= lnames);
        }
        Ok(ArchiveContents { files, leaves })
    }
}

/// Opens an archive from its bytes with the default spill threshold.
pub fn open_archive(archive: Vec<u8>) -> (r: Result<ArchiveReader, ArchiveError>)
    ensures
        r matches Ok(rd) ==> rd.wf() && rd.bytes() == archive@ && spec_archive_model(archive@)
            == Some(rd.ix()),
        r matches Err(e) ==> spec_archive_model(archive@) is None,
{
    ArchiveReader::new(archive, None)
}

/// Restores everything an archive holds: every file with its exact bytes,
/// and every leaf-directory name.
pub fn decompress_archive(archive: Vec<u8>) -> (r: Result<ArchiveContents, ArchiveError>)
    ensures
        r matches Ok(c) ==> (spec_archive_model(archive@) matches Some(ix) && {
            &&& extraction_ok(archive@, ix, Seq::new(ix.files.len(), |i: int| true), c.files@)
            &&& names_view(c.leaves@) == leaf_names(ix)
        }),
        r matches Err(e) ==> (spec_archive_model(archive@) is None || e
            matches ArchiveError::ExtractFailed { .. }),
        (spec_archive_model(archive@) matches Some(ix) && selection_extractable(
            archive@,
            ix,
            Seq::new(ix.files.len(), |i: int| true),
        )) ==> r is Ok,
{
    let ghost bytes = archive@;
    let rd = match ArchiveReader::new(archive, None) {
        Ok(rd) => rd,
        Err(e) => { return Err(e) },
    };
    let n = rd.file_count();
    let mut flags: Vec<bool> = Vec::new();
    let mut i: usize = 0;
    while i < n
        invariant
            i <= n,
            flags@.len() == i,
            forall|j: int| 0 <= j < i ==> flags@[j],
        decreases n - i,
    {
        flags.push(true);
        i += 1;
    }
    proof {
        assert(flags@ =~= Seq::new(rd.ix().files.len(), |i: int| true));
    }
    let files = match rd.extract_selected(&flags) {
        Ok(fs) => fs,
        Err(e) => { return Err(e) },
    };
    proof {
        assert(rd.bytes() == bytes);
    }
    let contents = ArchiveContents { files, leaves: leaf_names_of(&rd) };
    Ok(contents)
}

/// The leaf-directory names of a reader, in row order.
fn leaf_names_of(rd: &ArchiveReader) -> (r: Vec<String>)
    ensures
        names_view(r@) == leaf_names(rd.ix()),
{
    let mut out: Vec<String> = Vec::new();
    let ghost lnames = leaf_names(rd.ix());
    proof {
        assert(names_view(out@) =~= lnames.take(0));
    }
    let mut j: usize = 0;
    let leaves = rd.leaf_rows();
    while j < leaves.len()
        invariant
            j <= leaves@.len(),
            lnames == leaf_names(rd.ix()),
            lnames.len() == leaves@.len(),
            forall|k: int| 0 <= k < leaves@.len() ==> lnames[k] == leaves@[k].name@,
            names_view(out@) == lnames.take(j as int),
        decreases leaves@.len() - j,
    {
        let ghost pre = names_view(out@);
        out.push(leaves[j].name.clone());
        proof {
            assert(names_view(out@) =~= pre.push(out@[out@.len() - 1]@));
            assert(lnames.take(j + 1) =~= lnames.take(j as int).push(lnames[j as int]));
            assert(names_view(out@) =~= lnames.take(j + 1));
        }
        j += 1;
    }
    proof {
        assert(lnames.take(lnames.len() as int) =~= lnames);
    }
    out
}


/// Round-trip fidelity: for an archive built from given input files and leaf
/// directories, a full extraction yields every input file's exact bytes under
/// its exact name, and exactly the given leaf names.
pub proof fn lemma_round_trip_fidelity(
    bytes: Seq<u8>,
    inputs: Seq<crate::writer::InputFileV>,
    leaves: Seq<Seq<char>>,
    c_files: Seq<ExtractedFile>,
    c_leaves: Seq<Seq<char>>,
    ix: IndexV,
    codec: Codec,
    i: int,
)
    requires
        crate::writer::archive_restores(bytes, inputs, leaves, codec),
        spec_archive_model(bytes) == Some(ix),
        extraction_ok(bytes, ix, Seq::new(ix.files.len(), |k: int| true), c_files),
        c_leaves == leaf_names(ix),
        0 <= i < inputs.len(),
    ensures
        exists|t: int|
            0 <= t < c_files.len() && (#[trigger] c_files[t])@.name == inputs[i].name && c_files[t]@.data == inputs[i].data,
        c_leaves == leaves,
{
    let name = inputs[i].name;
    assert(spec_find_file(ix.files, name) matches Some(row) && spec_content_of(bytes, ix, row)
        == Some(inputs[i].data));
    crate::layout::lemma_find_file_exists(ix.files, name);
    let row = spec_find_file(ix.files, name)->Some_0;
    let j = choose|j: int| 0 <= j < ix.files.len() && #[trigger] ix.files[j] == row;
    let sel = Seq::new(ix.files.len(), |k: int| true);
    assert(sel[j]);
    let t = choose|t: int| 0 <= t < c_files.len() && (#[trigger] c_files[t])@.name == ix.files[j].name;
    assert(archive_output_ok(bytes, ix, c_files[t]@.name, c_files[t]@.data));
    assert(c_files[t]@.data == inputs[i].data);
    assert(c_leaves =~= leaves);
}

} // verus!
