//! The byte-level model of a whole archive: the 8-byte big-endian length
//! prefix, the LZ4-compressed index, and the blob of compressed blocks.
//! Both the writer and the reader state their contracts over these
//! definitions.

use crate::codec::{lz4_unpack, spec_codec_of_label, spec_label_of_codec, spec_unpack, Codec};
use crate::index::spec_parse_index;
use crate::rows::{contiguous_blocks, valid_file_row, BlockRowV, FileRowV, IndexV};
use crate::wire::{lemma_u64_be_bytes_roundtrip, spec_u64_from_be_bytes, spec_u64_to_be_bytes};
use vstd::prelude::*;

verus! {

/// The value of the 8-byte big-endian length prefix.
pub open spec fn spec_header_len(bytes: Seq<u8>) -> int
    recommends
        bytes.len() >= 8,
{
    spec_u64_from_be_bytes(bytes.take(8)) as int
}

/// Where the blob starts: after the prefix and the compressed index.
pub open spec fn spec_blob_start(bytes: Seq<u8>) -> int {
    8 + spec_header_len(bytes)
}

/// The index tables of an archive, if prefix, decompression and parsing all
/// succeed.
pub open spec fn spec_open_index(bytes: Seq<u8>) -> Option<IndexV> {
    if bytes.len() < 8 {
        None
    } else if spec_blob_start(bytes) > bytes.len() {
        None
    } else {
        match lz4_unpack(bytes.subrange(8, spec_blob_start(bytes))) {
            None => None,
            Some(db) => spec_parse_index(db),
        }
    }
}

/// The archive-wide validity conditions the reader checks at open time:
/// blocks contiguous from offset 0 and inside the archive, every file row
/// referring to an existing block with a sane byte range, and every block's
/// codec label supported.
pub open spec fn spec_index_valid(bytes: Seq<u8>, ix: IndexV) -> bool {
    &&& contiguous_blocks(ix.blocks)
    &&& forall|b: int|
        0 <= b < ix.blocks.len() ==> spec_blob_start(bytes) + (#[trigger] ix.blocks[b]).offset
            + ix.blocks[b].size <= bytes.len()
    &&& forall|b: int|
        0 <= b < ix.blocks.len() ==> spec_codec_of_label(
            (#[trigger] ix.blocks[b]).compression_type,
        ) is Some
    &&& forall|i: int|
        0 <= i < ix.files.len() ==> valid_file_row(#[trigger] ix.files[i], ix.blocks.len() as int)
    &&& forall|i: int, j: int|
        0 <= i < j < ix.files.len() ==> (#[trigger] ix.files[i]).name != (#[trigger] ix.files[j]).name
    &&& forall|i: int, j: int|
        0 <= i < j < ix.leaves.len() ==> (#[trigger] ix.leaves[i]).name != (
        #[trigger] ix.leaves[j]).name
}

/// The full open-time model: index tables of a valid archive.
pub open spec fn spec_archive_model(bytes: Seq<u8>) -> Option<IndexV> {
    match spec_open_index(bytes) {
        None => None,
        Some(ix) => if spec_index_valid(bytes, ix) {
            Some(ix)
        } else {
            None
        },
    }
}

/// The compressed bytes of block `b` inside the archive.
pub open spec fn spec_block_comp_bytes(bytes: Seq<u8>, ix: IndexV, b: int) -> Seq<u8>
    recommends
        0 <= b < ix.blocks.len(),
{
    bytes.subrange(
        spec_blob_start(bytes) + ix.blocks[b].offset,
        spec_blob_start(bytes) + ix.blocks[b].offset + ix.blocks[b].size,
    )
}

/// The uncompressed payload of block `b`, if its codec label is supported
/// and decompression succeeds.
pub open spec fn spec_block_raw(bytes: Seq<u8>, ix: IndexV, b: int) -> Option<Seq<u8>>
    recommends
        0 <= b < ix.blocks.len(),
{
    match spec_codec_of_label(ix.blocks[b].compression_type) {
        None => None,
        Some(c) => spec_unpack(c, spec_block_comp_bytes(bytes, ix, b)),
    }
}

/// The bytes a file row names: its slice of its block's payload.
pub open spec fn spec_content_of(bytes: Seq<u8>, ix: IndexV, row: FileRowV) -> Option<Seq<u8>>
    recommends
        0 <= row.block < ix.blocks.len(),
{
    match spec_block_raw(bytes, ix, row.block) {
        None => None,
        Some(raw) => if 0 <= row.offset && row.offset + row.size <= raw.len() {
            Some(raw.subrange(row.offset, row.offset + row.size))
        } else {
            None
        },
    }
}

/// The first file row with the given name, if any.
pub open spec fn spec_find_file(files: Seq<FileRowV>, name: Seq<char>) -> Option<FileRowV>
    decreases files.len(),
{
    if files.len() == 0 {
        None
    } else if files[0].name == name {
        Some(files[0])
    } else {
        spec_find_file(files.drop_first(), name)
    }
}

/// `spec_find_file` succeeds exactly when a row with the name exists, and
/// returns a row with that name.
pub proof fn lemma_find_file_exists(files: Seq<FileRowV>, name: Seq<char>)
    ensures
        (spec_find_file(files, name) is Some) <==> exists|i: int|
            0 <= i < files.len() && (#[trigger] files[i]).name == name,
        spec_find_file(files, name) matches Some(row) ==> row.name == name && exists|i: int|
            0 <= i < files.len() && #[trigger] files[i] == row,
    decreases files.len(),
{
    if files.len() == 0 {
    } else if files[0].name == name {
        assert(files[0].name == name);
    } else {
        lemma_find_file_exists(files.drop_first(), name);
        assert forall|i: int|
            0 <= i < files.len() && (#[trigger] files[i]).name == name implies spec_find_file(
            files,
            name,
        ) is Some by {
            assert(files.drop_first()[i - 1] == files[i]);
        }
        match spec_find_file(files, name) {
            Some(row) => {
                let i = choose|i: int|
                    0 <= i < files.drop_first().len() && #[trigger] files.drop_first()[i] == row;
                assert(files[i + 1] == row);
            },
            None => {},
        }
    }
}

/// When file names are unique, any row with the sought name is the row
/// `spec_find_file` returns.
pub proof fn lemma_find_file_unique(files: Seq<FileRowV>, i: int)
    requires
        0 <= i < files.len(),
        forall|a: int, b: int|
            0 <= a < b < files.len() ==> (#[trigger] files[a]).name != (#[trigger] files[b]).name,
    ensures
        spec_find_file(files, files[i].name) == Some(files[i]),
{
    lemma_find_file_exists(files, files[i].name);
    let row = spec_find_file(files, files[i].name)->Some_0;
    let j = choose|j: int| 0 <= j < files.len() && #[trigger] files[j] == row;
    if i != j {
        assert(files[i].name != files[j].name);
    }
}

/// A codec label built from a codec names that codec again.
pub proof fn lemma_label_roundtrip(c: Codec)
    ensures
        spec_codec_of_label(spec_label_of_codec(c)) == Some(c),
{
    reveal_strlit("LZMA");
    reveal_strlit("LZ4");
    reveal_strlit("ZSTD");
    reveal_strlit("NONE");
    assert("LZ4"@ != "LZMA"@) by {
        assert("LZ4"@.len() == 3 && "LZMA"@.len() == 4);
    }
    assert("ZSTD"@ != "LZMA"@) by {
        if "ZSTD"@ == "LZMA"@ {
            assert("ZSTD"@[0] == "LZMA"@[0]);
        }
    }
    assert("NONE"@ != "LZMA"@) by {
        if "NONE"@ == "LZMA"@ {
            assert("NONE"@[0] == "LZMA"@[0]);
        }
    }
    assert("ZSTD"@ != "LZ4"@) by {
        assert("ZSTD"@.len() == 4 && "LZ4"@.len() == 3);
    }
    assert("NONE"@ != "LZ4"@) by {
        assert("NONE"@.len() == 4 && "LZ4"@.len() == 3);
    }
    assert("NONE"@ != "ZSTD"@) by {
        if "NONE"@ == "ZSTD"@ {
            assert("NONE"@[0] == "ZSTD"@[0]);
        }
    }
}

/// The concatenation of a sequence of byte strings.
pub open spec fn blocks_concat(s: Seq<Seq<u8>>) -> Seq<u8>
    decreases s.len(),
{
    if s.len() == 0 {
        Seq::empty()
    } else {
        blocks_concat(s.drop_last()) + s.last()
    }
}

/// Total length of the first `n` byte strings.
pub open spec fn blocks_len_prefix(s: Seq<Seq<u8>>, n: int) -> int
    decreases n,
{
    if n <= 0 {
        0
    } else {
        blocks_len_prefix(s, n - 1) + s[n - 1].len()
    }
}

/// Concatenation appends one element's bytes.
pub proof fn lemma_blocks_concat_push(s: Seq<Seq<u8>>, x: Seq<u8>)
    ensures
        blocks_concat(s.push(x)) == blocks_concat(s) + x,
{
    assert(s.push(x).drop_last() =~= s);
    assert(s.push(x).last() == x);
}

/// The concatenation's length is the prefix length at the end.
pub proof fn lemma_blocks_concat_len(s: Seq<Seq<u8>>, n: int)
    requires
        0 <= n <= s.len(),
    ensures
        blocks_concat(s.take(n)).len() == blocks_len_prefix(s, n),
    decreases n,
{
    if n == 0 {
        assert(s.take(0) =~= Seq::<Seq<u8>>::empty());
    } else {
        lemma_blocks_concat_len(s, n - 1);
        assert(s.take(n).drop_last() =~= s.take(n - 1));
        assert(s.take(n).last() == s[n - 1]);
    }
}

/// Inside the concatenation, element `b` occupies exactly the range starting
/// at the total length of the elements before it.
pub proof fn lemma_blocks_concat_subrange(s: Seq<Seq<u8>>, b: int)
    requires
        0 <= b < s.len(),
    ensures
        blocks_len_prefix(s, b) + s[b].len() <= blocks_concat(s).len(),
        blocks_concat(s).subrange(blocks_len_prefix(s, b), blocks_len_prefix(s, b) + s[b].len())
            == s[b],
    decreases s.len(),
{
    assert(s.take(s.len() as int) =~= s);
    lemma_blocks_concat_len(s, s.len() as int);
    if b == s.len() - 1 {
        lemma_blocks_concat_len(s, b);
        assert(blocks_concat(s) == blocks_concat(s.drop_last()) + s.last());
        assert(s.drop_last() =~= s.take(b));
        assert(blocks_concat(s).subrange(
            blocks_len_prefix(s, b),
            blocks_len_prefix(s, b) + s[b].len(),
        ) =~= s[b]);
    } else {
        lemma_blocks_concat_subrange(s.drop_last(), b);
        assert(blocks_concat(s) == blocks_concat(s.drop_last()) + s.last());
        assert forall|n: int| 0 <= n <= b + 1 implies blocks_len_prefix(s.drop_last(), n)
            == blocks_len_prefix(s, n) by {
            lemma_blocks_len_prefix_agree(s, n);
        }
        assert(s.drop_last()[b] == s[b]);
        lemma_blocks_prefix_le(s, 0, b);
        assert(blocks_len_prefix(s, 0) == 0);
        assert(blocks_len_prefix(s, b) + s[b].len() <= blocks_concat(s.drop_last()).len());
        assert(blocks_concat(s.drop_last()).len() <= blocks_concat(s).len());
        assert(blocks_concat(s).subrange(
            blocks_len_prefix(s, b),
            blocks_len_prefix(s, b) + s[b].len(),
        ) =~= blocks_concat(s.drop_last()).subrange(
            blocks_len_prefix(s.drop_last(), b),
            blocks_len_prefix(s.drop_last(), b) + s.drop_last()[b].len(),
        ));
    }
}

/// A prefix length only depends on the elements before `n`.
pub proof fn lemma_blocks_len_prefix_agree(s: Seq<Seq<u8>>, n: int)
    requires
        0 <= n < s.len(),
    ensures
        blocks_len_prefix(s.drop_last(), n) == blocks_len_prefix(s, n),
    decreases n,
{
    if n > 0 {
        lemma_blocks_len_prefix_agree(s, n - 1);
        assert(s.drop_last()[n - 1] == s[n - 1]);
    }
}

/// Prefix sums grow with the prefix.
pub proof fn lemma_blocks_prefix_le(s: Seq<Seq<u8>>, m: int, n: int)
    requires
        0 <= m <= n <= s.len(),
    ensures
        blocks_len_prefix(s, m) <= blocks_len_prefix(s, n),
    decreases n - m,
{
    if m < n {
        lemma_blocks_prefix_le(s, m, n - 1);
    }
}

/// Reading back the length prefix of a well-formed archive layout.
pub proof fn lemma_header_len_of_assembled(ic: Seq<u8>, rest: Seq<u8>)
    requires
        ic.len() < 0x1_0000_0000_0000_0000,
    ensures
        ({
            let bytes = spec_u64_to_be_bytes(ic.len() as u64) + ic + rest;
            &&& bytes.len() == 8 + ic.len() + rest.len()
            &&& spec_header_len(bytes) == ic.len()
            &&& bytes.subrange(8, 8 + ic.len() as int) == ic
        }),
{
    let bytes = spec_u64_to_be_bytes(ic.len() as u64) + ic + rest;
    lemma_u64_be_bytes_roundtrip(ic.len() as u64);
    assert(bytes.take(8) =~= spec_u64_to_be_bytes(ic.len() as u64));
    assert(bytes.subrange(8, 8 + ic.len() as int) =~= ic);
}


/// Skipping a prefix without the sought name does not change the lookup.
pub proof fn lemma_find_file_skip(files: Seq<FileRowV>, name: Seq<char>, i: int)
    requires
        0 <= i <= files.len(),
        forall|j: int| 0 <= j < i ==> (#[trigger] files[j]).name != name,
    ensures
        spec_find_file(files, name) == spec_find_file(files.skip(i), name),
    decreases i,
{
    if i == 0 {
        assert(files.skip(0) =~= files);
    } else {
        assert(files[0].name != name);
        assert forall|j: int| 0 <= j < i - 1 implies (#[trigger] files.drop_first()[j]).name
            != name by {
            assert(files.drop_first()[j] == files[j + 1]);
        }
        lemma_find_file_skip(files.drop_first(), name, i - 1);
        assert(files.drop_first().skip(i - 1) =~= files.skip(i));
    }
}

/// Finds the first file row with the given name.
pub fn find_file_row<'a>(rows: &'a Vec<crate::rows::ArchiveFileEntry>, name: &String) -> (r: Option<
    &'a crate::rows::ArchiveFileEntry,
>)
    ensures
        match r {
            Some(row) => spec_find_file(crate::rows::file_rows_view(rows@), name@) == Some(row@),
            None => spec_find_file(crate::rows::file_rows_view(rows@), name@) is None,
        },
{
    let ghost rv = crate::rows::file_rows_view(rows@);
    let mut i: usize = 0;
    while i < rows.len()
        invariant
            i <= rows@.len(),
            rv == crate::rows::file_rows_view(rows@),
            rv.len() == rows@.len(),
            forall|j: int| 0 <= j < rows@.len() ==> rv[j] == rows@[j]@,
            forall|j: int| 0 <= j < i ==> (#[trigger] rv[j]).name != name@,
        decreases rows@.len() - i,
    {
        if rows[i].name == *name {
            proof {
                lemma_find_file_skip(rv, name@, i as int);
                assert(rv.skip(i as int)[0] == rv[i as int]);
            }
            return Some(&rows[i]);
        }
        i += 1;
    }
    proof {
        lemma_find_file_skip(rv, name@, rows@.len() as int);
        assert(rv.skip(rv.len() as int) =~= Seq::<FileRowV>::empty());
    }
    None
}

/// Whether the file rows' names are pairwise distinct.
pub fn file_names_unique(rows: &Vec<crate::rows::ArchiveFileEntry>) -> (r: bool)
    ensures
        r == forall|i: int, j: int|
            0 <= i < j < rows@.len() ==> (#[trigger] crate::rows::file_rows_view(rows@)[i]).name
                != (#[trigger] crate::rows::file_rows_view(rows@)[j]).name,
{
    let ghost rv = crate::rows::file_rows_view(rows@);
    let mut i: usize = 0;
    while i < rows.len()
        invariant
            i <= rows@.len(),
            rv == crate::rows::file_rows_view(rows@),
            rv.len() == rows@.len(),
            forall|j: int| 0 <= j < rows@.len() ==> rv[j] == rows@[j]@,
            forall|a: int, b: int|
                0 <= a < b < rows@.len() && b < i ==> (#[trigger] rv[a]).name != (
                #[trigger] rv[b]).name,
        decreases rows@.len() - i,
    {
        let mut j: usize = 0;
        while j < i
            invariant
                j <= i < rows@.len(),
                rv == crate::rows::file_rows_view(rows@),
                rv.len() == rows@.len(),
                forall|m: int| 0 <= m < rows@.len() ==> rv[m] == rows@[m]@,
                forall|a: int| 0 <= a < j ==> (#[trigger] rv[a]).name != rv[i as int].name,
            decreases i - j,
        {
            if rows[j].name == rows[i].name {
                proof {
                    assert(rv[j as int] == rows@[j as int]@);
                    assert(rv[i as int] == rows@[i as int]@);
                    assert(rv[j as int].name == rv[i as int].name);
                }
                return false;
            }
            proof {
                assert(rv[j as int] == rows@[j as int]@);
                assert(rv[i as int] == rows@[i as int]@);
            }
            j += 1;
        }
        i += 1;
    }
    true
}

/// Whether the leaf rows' names are pairwise distinct.
pub fn leaf_names_unique(rows: &Vec<crate::rows::ArchiveFolderLeafEntry>) -> (r: bool)
    ensures
        r == forall|i: int, j: int|
            0 <= i < j < rows@.len() ==> (#[trigger] crate::rows::leaf_rows_view(rows@)[i]).name
                != (#[trigger] crate::rows::leaf_rows_view(rows@)[j]).name,
{
    let ghost rv = crate::rows::leaf_rows_view(rows@);
    let mut i: usize = 0;
    while i < rows.len()
        invariant
            i <= rows@.len(),
            rv == crate::rows::leaf_rows_view(rows@),
            rv.len() == rows@.len(),
            forall|j: int| 0 <= j < rows@.len() ==> rv[j] == rows@[j]@,
            forall|a: int, b: int|
                0 <= a < b < rows@.len() && b < i ==> (#[trigger] rv[a]).name != (
                #[trigger] rv[b]).name,
        decreases rows@.len() - i,
    {
        let mut j: usize = 0;
        while j < i
            invariant
                j <= i < rows@.len(),
                rv == crate::rows::leaf_rows_view(rows@),
                rv.len() == rows@.len(),
                forall|m: int| 0 <= m < rows@.len() ==> rv[m] == rows@[m]@,
                forall|a: int| 0 <= a < j ==> (#[trigger] rv[a]).name != rv[i as int].name,
            decreases i - j,
        {
            if rows[j].name == rows[i].name {
                proof {
                    assert(rv[j as int] == rows@[j as int]@);
                    assert(rv[i as int] == rows@[i as int]@);
                    assert(rv[j as int].name == rv[i as int].name);
                }
                return false;
            }
            proof {
                assert(rv[j as int] == rows@[j as int]@);
                assert(rv[i as int] == rows@[i as int]@);
            }
            j += 1;
        }
        i += 1;
    }
    true
}


/// In a contiguous block table, ids are the indices and offsets and sizes
/// are non-negative.
pub proof fn lemma_blocks_nonneg_offsets(blocks: Seq<BlockRowV>, b: int)
    requires
        contiguous_blocks(blocks),
        0 <= b < blocks.len(),
    ensures
        blocks[b].offset >= 0,
        blocks[b].id == b,
        blocks[b].size >= 0,
    decreases b,
{
    if b > 0 {
        lemma_blocks_nonneg_offsets(blocks, b - 1);
    }
}

} // verus!
