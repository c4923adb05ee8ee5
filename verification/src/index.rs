//! The embedded index store: serializes the three tables (files, folder
//! leaves, blocks) as a length-prefixed record stream and re-hydrates them.
//! Decoding an encoded index is proved to restore the tables exactly.

use crate::errors::ArchiveError;
use crate::rows::{
    block_rows_view, file_rows_view, leaf_rows_view, ArchiveBlockInfo, ArchiveFileEntry,
    ArchiveFolderLeafEntry, BlockRowV, FileRowV, IndexV, LeafRowV,
};
use crate::wire::{
    lemma_take_str_roundtrip, lemma_take_u64_roundtrip, push_str, push_u64, read_str, read_u64,
    spec_enc_str, spec_take_str, spec_take_u64, spec_u64_to_be_bytes,
};
use vstd::prelude::*;
use vstd::string::StringExecFns;
use vstd::utf8::encode_utf8;

verus! {

/// A name whose UTF-8 form the wire format can carry.
pub open spec fn enc_ok_name(s: Seq<char>) -> bool {
    encode_utf8(s).len() < 0x1_0000_0000_0000_0000
}

/// A file row the wire format can carry.
pub open spec fn enc_ok_file_row(r: FileRowV) -> bool {
    &&& enc_ok_name(r.name)
    &&& 0 <= r.block <= i64::MAX
    &&& 0 <= r.offset <= i64::MAX
    &&& 0 <= r.size <= i64::MAX
}

/// A leaf row the wire format can carry.
pub open spec fn enc_ok_leaf_row(r: LeafRowV) -> bool {
    enc_ok_name(r.name)
}

/// A block row the wire format can carry.
pub open spec fn enc_ok_block_row(r: BlockRowV) -> bool {
    &&& enc_ok_name(r.compression_type)
    &&& 0 <= r.id <= i64::MAX
    &&& 0 <= r.size <= i64::MAX
    &&& 0 <= r.offset <= i64::MAX
}

/// The wire form of one file row.
pub open spec fn spec_enc_file_row(r: FileRowV) -> Seq<u8> {
    spec_enc_str(r.name) + spec_u64_to_be_bytes(r.block as u64) + spec_u64_to_be_bytes(
        r.offset as u64,
    ) + spec_u64_to_be_bytes(r.size as u64)
}

/// The wire form of one leaf row.
pub open spec fn spec_enc_leaf_row(r: LeafRowV) -> Seq<u8> {
    spec_enc_str(r.name)
}

/// The wire form of one block row.
pub open spec fn spec_enc_block_row(r: BlockRowV) -> Seq<u8> {
    spec_u64_to_be_bytes(r.id as u64) + spec_u64_to_be_bytes(r.size as u64)
        + spec_u64_to_be_bytes(r.offset as u64) + spec_enc_str(r.compression_type)
}

/// The wire form of a sequence of file rows.
pub open spec fn spec_enc_file_rows(rs: Seq<FileRowV>) -> Seq<u8>
    decreases rs.len(),
{
    if rs.len() == 0 {
        Seq::empty()
    } else {
        spec_enc_file_row(rs[0]) + spec_enc_file_rows(rs.drop_first())
    }
}

/// The wire form of a sequence of leaf rows.
pub open spec fn spec_enc_leaf_rows(rs: Seq<LeafRowV>) -> Seq<u8>
    decreases rs.len(),
{
    if rs.len() == 0 {
        Seq::empty()
    } else {
        spec_enc_leaf_row(rs[0]) + spec_enc_leaf_rows(rs.drop_first())
    }
}

/// The wire form of a sequence of block rows.
pub open spec fn spec_enc_block_rows(rs: Seq<BlockRowV>) -> Seq<u8>
    decreases rs.len(),
{
    if rs.len() == 0 {
        Seq::empty()
    } else {
        spec_enc_block_row(rs[0]) + spec_enc_block_rows(rs.drop_first())
    }
}

/// The wire form of a whole index: each table is its row count followed by
/// that many rows, tables in the order files, leaves, blocks.
pub open spec fn spec_enc_index(ix: IndexV) -> Seq<u8> {
    spec_u64_to_be_bytes(ix.files.len() as u64) + spec_enc_file_rows(ix.files)
        + spec_u64_to_be_bytes(ix.leaves.len() as u64) + spec_enc_leaf_rows(ix.leaves)
        + spec_u64_to_be_bytes(ix.blocks.len() as u64) + spec_enc_block_rows(ix.blocks)
}

/// Parses one file row from the front of `b`.
pub open spec fn spec_take_file_row(b: Seq<u8>) -> Option<(FileRowV, Seq<u8>)> {
    match spec_take_str(b) {
        None => None,
        Some((name, b1)) => match spec_take_u64(b1) {
            None => None,
            Some((block, b2)) => if block > i64::MAX as u64 {
                None
            } else {
                match spec_take_u64(b2) {
                    None => None,
                    Some((offset, b3)) => if offset > i64::MAX as u64 {
                        None
                    } else {
                        match spec_take_u64(b3) {
                            None => None,
                            Some((size, b4)) => if size > i64::MAX as u64 {
                                None
                            } else {
                                Some(
                                    (
                                        FileRowV {
                                            name,
                                            block: block as int,
                                            offset: offset as int,
                                            size: size as int,
                                        },
                                        b4,
                                    ),
                                )
                            },
                        }
                    },
                }
            },
        },
    }
}

/// Parses one leaf row from the front of `b`.
pub open spec fn spec_take_leaf_row(b: Seq<u8>) -> Option<(LeafRowV, Seq<u8>)> {
    match spec_take_str(b) {
        None => None,
        Some((name, b1)) => Some((LeafRowV { name }, b1)),
    }
}

/// Parses one block row from the front of `b`.
pub open spec fn spec_take_block_row(b: Seq<u8>) -> Option<(BlockRowV, Seq<u8>)> {
    match spec_take_u64(b) {
        None => None,
        Some((id, b1)) => if id > i64::MAX as u64 {
            None
        } else {
            match spec_take_u64(b1) {
                None => None,
                Some((size, b2)) => if size > i64::MAX as u64 {
                    None
                } else {
                    match spec_take_u64(b2) {
                        None => None,
                        Some((offset, b3)) => if offset > i64::MAX as u64 {
                            None
                        } else {
                            match spec_take_str(b3) {
                                None => None,
                                Some((compression_type, b4)) => Some(
                                    (
                                        BlockRowV {
                                            id: id as int,
                                            size: size as int,
                                            offset: offset as int,
                                            compression_type,
                                        },
                                        b4,
                                    ),
                                ),
                            }
                        },
                    }
                },
            }
        },
    }
}

/// Parses `n` file rows from the front of `b`.
pub open spec fn spec_take_file_rows(b: Seq<u8>, n: nat) -> Option<(Seq<FileRowV>, Seq<u8>)>
    decreases n,
{
    if n == 0 {
        Some((Seq::empty(), b))
    } else {
        match spec_take_file_row(b) {
            None => None,
            Some((r, rest)) => match spec_take_file_rows(rest, (n - 1) as nat) {
                None => None,
                Some((rs, rest2)) => Some((seq![r] + rs, rest2)),
            },
        }
    }
}

/// Parses `n` leaf rows from the front of `b`.
pub open spec fn spec_take_leaf_rows(b: Seq<u8>, n: nat) -> Option<(Seq<LeafRowV>, Seq<u8>)>
    decreases n,
{
    if n == 0 {
        Some((Seq::empty(), b))
    } else {
        match spec_take_leaf_row(b) {
            None => None,
            Some((r, rest)) => match spec_take_leaf_rows(rest, (n - 1) as nat) {
                None => None,
                Some((rs, rest2)) => Some((seq![r] + rs, rest2)),
            },
        }
    }
}

/// Parses `n` block rows from the front of `b`.
pub open spec fn spec_take_block_rows(b: Seq<u8>, n: nat) -> Option<(Seq<BlockRowV>, Seq<u8>)>
    decreases n,
{
    if n == 0 {
        Some((Seq::empty(), b))
    } else {
        match spec_take_block_row(b) {
            None => None,
            Some((r, rest)) => match spec_take_block_rows(rest, (n - 1) as nat) {
                None => None,
                Some((rs, rest2)) => Some((seq![r] + rs, rest2)),
            },
        }
    }
}

/// Parses a whole index; the bytes must be consumed exactly.
pub open spec fn spec_parse_index(b: Seq<u8>) -> Option<IndexV> {
    match spec_take_u64(b) {
        None => None,
        Some((nf, b1)) => match spec_take_file_rows(b1, nf as nat) {
            None => None,
            Some((files, b2)) => match spec_take_u64(b2) {
                None => None,
                Some((nl, b3)) => match spec_take_leaf_rows(b3, nl as nat) {
                    None => None,
                    Some((leaves, b4)) => match spec_take_u64(b4) {
                        None => None,
                        Some((nb, b5)) => match spec_take_block_rows(b5, nb as nat) {
                            None => None,
                            Some((blocks, b6)) => if b6.len() == 0 {
                                Some(IndexV { files, leaves, blocks })
                            } else {
                                None
                            },
                        },
                    },
                },
            },
        },
    }
}

/// Parsing an encoded file row followed by anything yields the row and the rest.
pub proof fn lemma_file_row_roundtrip(r: FileRowV, rest: Seq<u8>)
    requires
        enc_ok_file_row(r),
    ensures
        spec_take_file_row(spec_enc_file_row(r) + rest) == Some((r, rest)),
{
    let t3 = spec_u64_to_be_bytes(r.size as u64) + rest;
    let t2 = spec_u64_to_be_bytes(r.offset as u64) + t3;
    let t1 = spec_u64_to_be_bytes(r.block as u64) + t2;
    assert(spec_enc_file_row(r) + rest =~= spec_enc_str(r.name) + t1);
    lemma_take_str_roundtrip(r.name, t1);
    lemma_take_u64_roundtrip(r.block as u64, t2);
    lemma_take_u64_roundtrip(r.offset as u64, t3);
    lemma_take_u64_roundtrip(r.size as u64, rest);
}

/// Parsing an encoded leaf row followed by anything yields the row and the rest.
pub proof fn lemma_leaf_row_roundtrip(r: LeafRowV, rest: Seq<u8>)
    requires
        enc_ok_leaf_row(r),
    ensures
        spec_take_leaf_row(spec_enc_leaf_row(r) + rest) == Some((r, rest)),
{
    lemma_take_str_roundtrip(r.name, rest);
}

/// Parsing an encoded block row followed by anything yields the row and the rest.
pub proof fn lemma_block_row_roundtrip(r: BlockRowV, rest: Seq<u8>)
    requires
        enc_ok_block_row(r),
    ensures
        spec_take_block_row(spec_enc_block_row(r) + rest) == Some((r, rest)),
{
    let t3 = spec_enc_str(r.compression_type) + rest;
    let t2 = spec_u64_to_be_bytes(r.offset as u64) + t3;
    let t1 = spec_u64_to_be_bytes(r.size as u64) + t2;
    assert(spec_enc_block_row(r) + rest =~= spec_u64_to_be_bytes(r.id as u64) + t1);
    lemma_take_u64_roundtrip(r.id as u64, t1);
    lemma_take_u64_roundtrip(r.size as u64, t2);
    lemma_take_u64_roundtrip(r.offset as u64, t3);
    lemma_take_str_roundtrip(r.compression_type, rest);
}


/// Parsing the encodings of `n` file rows followed by anything yields the rows and the rest.
pub proof fn lemma_file_rows_roundtrip(rs: Seq<FileRowV>, rest: Seq<u8>)
    requires
        forall|i: int| 0 <= i < rs.len() ==> enc_ok_file_row(#[trigger] rs[i]),
    ensures
        spec_take_file_rows(spec_enc_file_rows(rs) + rest, rs.len() as nat) == Some((rs, rest)),
    decreases rs.len(),
{
    if rs.len() == 0 {
        assert(spec_enc_file_rows(rs) + rest =~= rest);
        assert(rs =~= Seq::<FileRowV>::empty());
    } else {
        let r0 = rs[0];
        let tail = rs.drop_first();
        assert(spec_enc_file_rows(rs) + rest =~= spec_enc_file_row(r0) + (spec_enc_file_rows(tail)
            + rest));
        lemma_file_row_roundtrip(r0, spec_enc_file_rows(tail) + rest);
        lemma_file_rows_roundtrip(tail, rest);
        assert(seq![r0] + tail =~= rs);
    }
}

/// Parsing the encodings of `n` leaf rows followed by anything yields the rows and the rest.
pub proof fn lemma_leaf_rows_roundtrip(rs: Seq<LeafRowV>, rest: Seq<u8>)
    requires
        forall|i: int| 0 <= i < rs.len() ==> enc_ok_leaf_row(#[trigger] rs[i]),
    ensures
        spec_take_leaf_rows(spec_enc_leaf_rows(rs) + rest, rs.len() as nat) == Some((rs, rest)),
    decreases rs.len(),
{
    if rs.len() == 0 {
        assert(spec_enc_leaf_rows(rs) + rest =~= rest);
        assert(rs =~= Seq::<LeafRowV>::empty());
    } else {
        let r0 = rs[0];
        let tail = rs.drop_first();
        assert(spec_enc_leaf_rows(rs) + rest =~= spec_enc_leaf_row(r0) + (spec_enc_leaf_rows(tail)
            + rest));
        lemma_leaf_row_roundtrip(r0, spec_enc_leaf_rows(tail) + rest);
        lemma_leaf_rows_roundtrip(tail, rest);
        assert(seq![r0] + tail =~= rs);
    }
}

/// Parsing the encodings of `n` block rows followed by anything yields the rows and the rest.
pub proof fn lemma_block_rows_roundtrip(rs: Seq<BlockRowV>, rest: Seq<u8>)
    requires
        forall|i: int| 0 <= i < rs.len() ==> enc_ok_block_row(#[trigger] rs[i]),
    ensures
        spec_take_block_rows(spec_enc_block_rows(rs) + rest, rs.len() as nat) == Some((rs, rest)),
    decreases rs.len(),
{
    if rs.len() == 0 {
        assert(spec_enc_block_rows(rs) + rest =~= rest);
        assert(rs =~= Seq::<BlockRowV>::empty());
    } else {
        let r0 = rs[0];
        let tail = rs.drop_first();
        assert(spec_enc_block_rows(rs) + rest =~= spec_enc_block_row(r0) + (spec_enc_block_rows(
            tail,
        ) + rest));
        lemma_block_row_roundtrip(r0, spec_enc_block_rows(tail) + rest);
        lemma_block_rows_roundtrip(tail, rest);
        assert(seq![r0] + tail =~= rs);
    }
}

/// Encoding distributes over appending one file row.
pub proof fn lemma_enc_file_rows_push(rs: Seq<FileRowV>, r: FileRowV)
    ensures
        spec_enc_file_rows(rs.push(r)) == spec_enc_file_rows(rs) + spec_enc_file_row(r),
    decreases rs.len(),
{
    if rs.len() == 0 {
        assert(rs.push(r)[0] == r);
        assert(rs.push(r).drop_first() =~= Seq::<FileRowV>::empty());
        assert(spec_enc_file_rows(rs.push(r).drop_first()) == Seq::<u8>::empty());
        assert(spec_enc_file_rows(rs.push(r)) == spec_enc_file_row(r) + Seq::<u8>::empty());
        assert(spec_enc_file_rows(rs.push(r)) =~= spec_enc_file_rows(rs) + spec_enc_file_row(r));
    } else {
        assert(rs.push(r).drop_first() =~= rs.drop_first().push(r));
        assert(rs.push(r)[0] == rs[0]);
        lemma_enc_file_rows_push(rs.drop_first(), r);
        assert(spec_enc_file_rows(rs) == spec_enc_file_row(rs[0]) + spec_enc_file_rows(
            rs.drop_first(),
        ));
        assert(spec_enc_file_rows(rs.push(r)) == spec_enc_file_row(rs[0]) + (spec_enc_file_rows(
            rs.drop_first(),
        ) + spec_enc_file_row(r)));
        vstd::seq_lib::lemma_concat_associative(
            spec_enc_file_row(rs[0]),
            spec_enc_file_rows(rs.drop_first()),
            spec_enc_file_row(r),
        );
    }
}

/// Encoding distributes over appending one leaf row.
pub proof fn lemma_enc_leaf_rows_push(rs: Seq<LeafRowV>, r: LeafRowV)
    ensures
        spec_enc_leaf_rows(rs.push(r)) == spec_enc_leaf_rows(rs) + spec_enc_leaf_row(r),
    decreases rs.len(),
{
    if rs.len() == 0 {
        assert(rs.push(r)[0] == r);
        assert(rs.push(r).drop_first() =~= Seq::<LeafRowV>::empty());
        assert(spec_enc_leaf_rows(rs.push(r).drop_first()) == Seq::<u8>::empty());
        assert(spec_enc_leaf_rows(rs.push(r)) == spec_enc_leaf_row(r) + Seq::<u8>::empty());
        assert(spec_enc_leaf_rows(rs.push(r)) =~= spec_enc_leaf_rows(rs) + spec_enc_leaf_row(r));
    } else {
        assert(rs.push(r).drop_first() =~= rs.drop_first().push(r));
        assert(rs.push(r)[0] == rs[0]);
        lemma_enc_leaf_rows_push(rs.drop_first(), r);
        assert(spec_enc_leaf_rows(rs) == spec_enc_leaf_row(rs[0]) + spec_enc_leaf_rows(
            rs.drop_first(),
        ));
        assert(spec_enc_leaf_rows(rs.push(r)) == spec_enc_leaf_row(rs[0]) + (spec_enc_leaf_rows(
            rs.drop_first(),
        ) + spec_enc_leaf_row(r)));
        vstd::seq_lib::lemma_concat_associative(
            spec_enc_leaf_row(rs[0]),
            spec_enc_leaf_rows(rs.drop_first()),
            spec_enc_leaf_row(r),
        );
    }
}

/// Encoding distributes over appending one block row.
pub proof fn lemma_enc_block_rows_push(rs: Seq<BlockRowV>, r: BlockRowV)
    ensures
        spec_enc_block_rows(rs.push(r)) == spec_enc_block_rows(rs) + spec_enc_block_row(r),
    decreases rs.len(),
{
    if rs.len() == 0 {
        assert(rs.push(r)[0] == r);
        assert(rs.push(r).drop_first() =~= Seq::<BlockRowV>::empty());
        assert(spec_enc_block_rows(rs.push(r).drop_first()) == Seq::<u8>::empty());
        assert(spec_enc_block_rows(rs.push(r)) == spec_enc_block_row(r) + Seq::<u8>::empty());
        assert(spec_enc_block_rows(rs.push(r)) =~= spec_enc_block_rows(rs) + spec_enc_block_row(r));
    } else {
        assert(rs.push(r).drop_first() =~= rs.drop_first().push(r));
        assert(rs.push(r)[0] == rs[0]);
        lemma_enc_block_rows_push(rs.drop_first(), r);
        assert(spec_enc_block_rows(rs) == spec_enc_block_row(rs[0]) + spec_enc_block_rows(
            rs.drop_first(),
        ));
        assert(spec_enc_block_rows(rs.push(r)) == spec_enc_block_row(rs[0]) + (spec_enc_block_rows(
            rs.drop_first(),
        ) + spec_enc_block_row(r)));
        vstd::seq_lib::lemma_concat_associative(
            spec_enc_block_row(rs[0]),
            spec_enc_block_rows(rs.drop_first()),
            spec_enc_block_row(r),
        );
    }
}

/// Parsing an encoded index yields the index back.
#[verifier::rlimit(60)]
pub proof fn lemma_parse_enc_index(ix: IndexV)
    requires
        forall|i: int| 0 <= i < ix.files.len() ==> enc_ok_file_row(#[trigger] ix.files[i]),
        forall|i: int| 0 <= i < ix.leaves.len() ==> enc_ok_leaf_row(#[trigger] ix.leaves[i]),
        forall|i: int| 0 <= i < ix.blocks.len() ==> enc_ok_block_row(#[trigger] ix.blocks[i]),
        ix.files.len() < 0x1_0000_0000_0000_0000,
        ix.leaves.len() < 0x1_0000_0000_0000_0000,
        ix.blocks.len() < 0x1_0000_0000_0000_0000,
    ensures
        spec_parse_index(spec_enc_index(ix)) == Some(ix),
{
    let t5 = spec_enc_block_rows(ix.blocks);
    let t4 = spec_u64_to_be_bytes(ix.blocks.len() as u64) + t5;
    let t3 = spec_enc_leaf_rows(ix.leaves) + t4;
    let t2 = spec_u64_to_be_bytes(ix.leaves.len() as u64) + t3;
    let t1 = spec_enc_file_rows(ix.files) + t2;
    assert(spec_enc_index(ix) =~= spec_u64_to_be_bytes(ix.files.len() as u64) + t1);
    lemma_take_u64_roundtrip(ix.files.len() as u64, t1);
    lemma_file_rows_roundtrip(ix.files, t2);
    lemma_take_u64_roundtrip(ix.leaves.len() as u64, t3);
    lemma_leaf_rows_roundtrip(ix.leaves, t4);
    lemma_take_u64_roundtrip(ix.blocks.len() as u64, t5);
    assert(t5 =~= spec_enc_block_rows(ix.blocks) + Seq::<u8>::empty());
    lemma_block_rows_roundtrip(ix.blocks, Seq::<u8>::empty());
}


/// A file row whose numeric fields are non-negative, as the writer produces.
pub open spec fn nonneg_file_row(r: FileRowV) -> bool {
    0 <= r.block && 0 <= r.offset && 0 <= r.size
}

/// A block row whose numeric fields are non-negative, as the writer produces.
pub open spec fn nonneg_block_row(r: BlockRowV) -> bool {
    0 <= r.id && 0 <= r.size && 0 <= r.offset
}

fn encode_file_rows(out: &mut Vec<u8>, files: &Vec<ArchiveFileEntry>)
    requires
        forall|i: int| 0 <= i < files@.len() ==> nonneg_file_row(#[trigger] files@[i]@),
    ensures
        final(out)@ == old(out)@ + spec_enc_file_rows(file_rows_view(files@)),
        forall|i: int|
            0 <= i < files@.len() ==> enc_ok_file_row(#[trigger] file_rows_view(files@)[i]),
{
    let ghost rows = file_rows_view(files@);
    let mut i: usize = 0;
    while i < files.len()
        invariant
            i <= files@.len(),
            rows == file_rows_view(files@),
            rows.len() == files@.len(),
            forall|j: int| 0 <= j < files@.len() ==> nonneg_file_row(#[trigger] files@[j]@),
            forall|j: int| 0 <= j < files@.len() ==> rows[j] == files@[j]@,
            out@ == old(out)@ + spec_enc_file_rows(rows.take(i as int)),
            forall|j: int| 0 <= j < i ==> enc_ok_file_row(#[trigger] rows[j]),
        decreases files@.len() - i,
    {
        let ghost pre = out@;
        let f = &files[i];
        push_str(out, f.name.as_str());
        push_u64(out, f.block as u64);
        push_u64(out, f.offset as u64);
        push_u64(out, f.size as u64);
        proof {
            assert(out@ =~= pre + spec_enc_file_row(rows[i as int]));
            lemma_enc_file_rows_push(rows.take(i as int), rows[i as int]);
            assert(rows.take(i + 1) =~= rows.take(i as int).push(rows[i as int]));
            assert(out@ =~= old(out)@ + spec_enc_file_rows(rows.take(i + 1)));
        }
        i += 1;
    }
    proof {
        assert(rows.take(files@.len() as int) =~= rows);
    }
}

fn encode_leaf_rows(out: &mut Vec<u8>, leaves: &Vec<ArchiveFolderLeafEntry>)
    ensures
        final(out)@ == old(out)@ + spec_enc_leaf_rows(leaf_rows_view(leaves@)),
        forall|i: int|
            0 <= i < leaves@.len() ==> enc_ok_leaf_row(#[trigger] leaf_rows_view(leaves@)[i]),
{
    let ghost rows = leaf_rows_view(leaves@);
    let mut i: usize = 0;
    while i < leaves.len()
        invariant
            i <= leaves@.len(),
            rows == leaf_rows_view(leaves@),
            rows.len() == leaves@.len(),
            forall|j: int| 0 <= j < leaves@.len() ==> rows[j] == leaves@[j]@,
            out@ == old(out)@ + spec_enc_leaf_rows(rows.take(i as int)),
            forall|j: int| 0 <= j < i ==> enc_ok_leaf_row(#[trigger] rows[j]),
        decreases leaves@.len() - i,
    {
        let ghost pre = out@;
        let l = &leaves[i];
        push_str(out, l.name.as_str());
        proof {
            assert(out@ =~= pre + spec_enc_leaf_row(rows[i as int]));
            lemma_enc_leaf_rows_push(rows.take(i as int), rows[i as int]);
            assert(rows.take(i + 1) =~= rows.take(i as int).push(rows[i as int]));
            assert(out@ =~= old(out)@ + spec_enc_leaf_rows(rows.take(i + 1)));
        }
        i += 1;
    }
    proof {
        assert(rows.take(leaves@.len() as int) =~= rows);
    }
}

fn encode_block_rows(out: &mut Vec<u8>, blocks: &Vec<ArchiveBlockInfo>)
    requires
        forall|i: int| 0 <= i < blocks@.len() ==> nonneg_block_row(#[trigger] blocks@[i]@),
    ensures
        final(out)@ == old(out)@ + spec_enc_block_rows(block_rows_view(blocks@)),
        forall|i: int|
            0 <= i < blocks@.len() ==> enc_ok_block_row(#[trigger] block_rows_view(blocks@)[i]),
{
    let ghost rows = block_rows_view(blocks@);
    let mut i: usize = 0;
    while i < blocks.len()
        invariant
            i <= blocks@.len(),
            rows == block_rows_view(blocks@),
            rows.len() == blocks@.len(),
            forall|j: int| 0 <= j < blocks@.len() ==> nonneg_block_row(#[trigger] blocks@[j]@),
            forall|j: int| 0 <= j < blocks@.len() ==> rows[j] == blocks@[j]@,
            out@ == old(out)@ + spec_enc_block_rows(rows.take(i as int)),
            forall|j: int| 0 <= j < i ==> enc_ok_block_row(#[trigger] rows[j]),
        decreases blocks@.len() - i,
    {
        let ghost pre = out@;
        let b = &blocks[i];
        push_u64(out, b.id as u64);
        push_u64(out, b.size as u64);
        push_u64(out, b.offset as u64);
        push_str(out, b.compression_type.as_str());
        proof {
            assert(out@ =~= pre + spec_enc_block_row(rows[i as int]));
            lemma_enc_block_rows_push(rows.take(i as int), rows[i as int]);
            assert(rows.take(i + 1) =~= rows.take(i as int).push(rows[i as int]));
            assert(out@ =~= old(out)@ + spec_enc_block_rows(rows.take(i + 1)));
        }
        i += 1;
    }
    proof {
        assert(rows.take(blocks@.len() as int) =~= rows);
    }
}

/// Serializes the three tables.  Decoding the result is proved to restore
/// them exactly: the second postcondition is the store's round-trip law.
pub fn encode_index(
    files: &Vec<ArchiveFileEntry>,
    leaves: &Vec<ArchiveFolderLeafEntry>,
    blocks: &Vec<ArchiveBlockInfo>,
) -> (r: Vec<u8>)
    requires
        forall|i: int| 0 <= i < files@.len() ==> nonneg_file_row(#[trigger] files@[i]@),
        forall|i: int| 0 <= i < blocks@.len() ==> nonneg_block_row(#[trigger] blocks@[i]@),
    ensures
        r@ == spec_enc_index(
            IndexV {
                files: file_rows_view(files@),
                leaves: leaf_rows_view(leaves@),
                blocks: block_rows_view(blocks@),
            },
        ),
        spec_parse_index(r@) == Some(
            IndexV {
                files: file_rows_view(files@),
                leaves: leaf_rows_view(leaves@),
                blocks: block_rows_view(blocks@),
            },
        ),
{
    let ghost ix = IndexV {
        files: file_rows_view(files@),
        leaves: leaf_rows_view(leaves@),
        blocks: block_rows_view(blocks@),
    };
    let mut out: Vec<u8> = Vec::new();
    push_u64(&mut out, files.len() as u64);
    encode_file_rows(&mut out, files);
    push_u64(&mut out, leaves.len() as u64);
    encode_leaf_rows(&mut out, leaves);
    push_u64(&mut out, blocks.len() as u64);
    encode_block_rows(&mut out, blocks);
    proof {
        assert(out@ =~= spec_enc_index(ix));
        lemma_parse_enc_index(ix);
    }
    out
}


fn read_file_row(b: &[u8], pos: usize) -> (r: Option<(ArchiveFileEntry, usize)>)
    requires
        pos <= b@.len(),
    ensures
        match r {
            Some((row, p2)) => {
                &&& spec_take_file_row(b@.skip(pos as int)) == Some((row@, b@.skip(p2 as int)))
                &&& pos <= p2 <= b@.len()
                &&& nonneg_file_row(row@)
            },
            None => spec_take_file_row(b@.skip(pos as int)) is None,
        },
{
    let (name, p1) = match read_str(b, pos) {
        None => { return None },
        Some(v) => v,
    };
    let (block, p2) = match read_u64(b, p1) {
        None => { return None },
        Some(v) => v,
    };
    if block > i64::MAX as u64 {
        return None;
    }
    let (offset, p3) = match read_u64(b, p2) {
        None => { return None },
        Some(v) => v,
    };
    if offset > i64::MAX as u64 {
        return None;
    }
    let (size, p4) = match read_u64(b, p3) {
        None => { return None },
        Some(v) => v,
    };
    if size > i64::MAX as u64 {
        return None;
    }
    Some(
        (
            ArchiveFileEntry {
                name,
                block: block as i64,
                offset: offset as i64,
                size: size as i64,
            },
            p4,
        ),
    )
}

fn read_leaf_row(b: &[u8], pos: usize) -> (r: Option<(ArchiveFolderLeafEntry, usize)>)
    requires
        pos <= b@.len(),
    ensures
        match r {
            Some((row, p2)) => {
                &&& spec_take_leaf_row(b@.skip(pos as int)) == Some((row@, b@.skip(p2 as int)))
                &&& pos <= p2 <= b@.len()
            },
            None => spec_take_leaf_row(b@.skip(pos as int)) is None,
        },
{
    match read_str(b, pos) {
        None => None,
        Some((name, p1)) => Some((ArchiveFolderLeafEntry { name }, p1)),
    }
}

fn read_block_row(b: &[u8], pos: usize) -> (r: Option<(ArchiveBlockInfo, usize)>)
    requires
        pos <= b@.len(),
    ensures
        match r {
            Some((row, p2)) => {
                &&& spec_take_block_row(b@.skip(pos as int)) == Some((row@, b@.skip(p2 as int)))
                &&& pos <= p2 <= b@.len()
                &&& nonneg_block_row(row@)
            },
            None => spec_take_block_row(b@.skip(pos as int)) is None,
        },
{
    let (id, p1) = match read_u64(b, pos) {
        None => { return None },
        Some(v) => v,
    };
    if id > i64::MAX as u64 {
        return None;
    }
    let (size, p2) = match read_u64(b, p1) {
        None => { return None },
        Some(v) => v,
    };
    if size > i64::MAX as u64 {
        return None;
    }
    let (offset, p3) = match read_u64(b, p2) {
        None => { return None },
        Some(v) => v,
    };
    if offset > i64::MAX as u64 {
        return None;
    }
    let (compression_type, p4) = match read_str(b, p3) {
        None => { return None },
        Some(v) => v,
    };
    Some(
        (
            ArchiveBlockInfo {
                id: id as i64,
                size: size as i64,
                offset: offset as i64,
                compression_type,
            },
            p4,
        ),
    )
}

#[verifier::rlimit(90)]
fn read_file_rows(b: &[u8], pos: usize, n: u64) -> (r: Option<(Vec<ArchiveFileEntry>, usize)>)
    requires
        pos <= b@.len(),
    ensures
        match r {
            Some((rows, p2)) => {
                &&& spec_take_file_rows(b@.skip(pos as int), n as nat) == Some(
                    (file_rows_view(rows@), b@.skip(p2 as int)),
                )
                &&& pos <= p2 <= b@.len()
                &&& forall|i: int|
                    0 <= i < rows@.len() ==> nonneg_file_row(#[trigger] file_rows_view(rows@)[i])
            },
            None => spec_take_file_rows(b@.skip(pos as int), n as nat) is None,
        },
{
    let mut rows: Vec<ArchiveFileEntry> = Vec::new();
    let mut p = pos;
    let mut i: u64 = 0;
    while i < n
        invariant
            i <= n,
            pos <= p <= b@.len(),
            rows@.len() == i,
            forall|j: int|
                0 <= j < rows@.len() ==> nonneg_file_row(#[trigger] file_rows_view(rows@)[j]),
            spec_take_file_rows(b@.skip(pos as int), n as nat) == (match spec_take_file_rows(
                b@.skip(p as int),
                (n - i) as nat,
            ) {
                None => None::<(Seq<FileRowV>, Seq<u8>)>,
                Some((rs, rest)) => Some((file_rows_view(rows@) + rs, rest)),
            }),
        decreases n - i,
    {
        let ghost pre_rows = rows@;
        let ghost pre_p = p;
        match read_file_row(b, p) {
            None => {
                proof {
                    assert(spec_take_file_rows(b@.skip(p as int), (n - i) as nat) is None);
                }
                return None;
            },
            Some((row, p2)) => {
                proof {
                    let tail = b@.skip(p2 as int);
                    assert(spec_take_file_rows(b@.skip(p as int), (n - i) as nat) == (
                    match spec_take_file_rows(tail, (n - i - 1) as nat) {
                        None => None::<(Seq<FileRowV>, Seq<u8>)>,
                        Some((rs, rest)) => Some((seq![row@] + rs, rest)),
                    }));
                }
                rows.push(row);
                p = p2;
                proof {
                    assert(file_rows_view(rows@) =~= file_rows_view(pre_rows).push(rows@[i as int]@));
                    match spec_take_file_rows(b@.skip(p as int), (n - i - 1) as nat) {
                        Some((rs, rest)) => {
                            assert(file_rows_view(pre_rows) + (seq![rows@[i as int]@] + rs)
                                =~= file_rows_view(rows@) + rs);
                        },
                        None => {},
                    }
                }
                i += 1;
            },
        }
    }
    proof {
        assert(spec_take_file_rows(b@.skip(p as int), 0) == Some(
            (Seq::<FileRowV>::empty(), b@.skip(p as int)),
        ));
        assert(file_rows_view(rows@) + Seq::<FileRowV>::empty() =~= file_rows_view(rows@));
    }
    Some((rows, p))
}

#[verifier::rlimit(90)]
fn read_leaf_rows(b: &[u8], pos: usize, n: u64) -> (r: Option<
    (Vec<ArchiveFolderLeafEntry>, usize),
>)
    requires
        pos <= b@.len(),
    ensures
        match r {
            Some((rows, p2)) => {
                &&& spec_take_leaf_rows(b@.skip(pos as int), n as nat) == Some(
                    (leaf_rows_view(rows@), b@.skip(p2 as int)),
                )
                &&& pos <= p2 <= b@.len()
            },
            None => spec_take_leaf_rows(b@.skip(pos as int), n as nat) is None,
        },
{
    let mut rows: Vec<ArchiveFolderLeafEntry> = Vec::new();
    let mut p = pos;
    let mut i: u64 = 0;
    while i < n
        invariant
            i <= n,
            pos <= p <= b@.len(),
            rows@.len() == i,
            spec_take_leaf_rows(b@.skip(pos as int), n as nat) == (match spec_take_leaf_rows(
                b@.skip(p as int),
                (n - i) as nat,
            ) {
                None => None::<(Seq<LeafRowV>, Seq<u8>)>,
                Some((rs, rest)) => Some((leaf_rows_view(rows@) + rs, rest)),
            }),
        decreases n - i,
    {
        let ghost pre_rows = rows@;
        match read_leaf_row(b, p) {
            None => {
                proof {
                    assert(spec_take_leaf_rows(b@.skip(p as int), (n - i) as nat) is None);
                }
                return None;
            },
            Some((row, p2)) => {
                proof {
                    let tail = b@.skip(p2 as int);
                    assert(spec_take_leaf_rows(b@.skip(p as int), (n - i) as nat) == (
                    match spec_take_leaf_rows(tail, (n - i - 1) as nat) {
                        None => None::<(Seq<LeafRowV>, Seq<u8>)>,
                        Some((rs, rest)) => Some((seq![row@] + rs, rest)),
                    }));
                }
                rows.push(row);
                p = p2;
                proof {
                    assert(leaf_rows_view(rows@) =~= leaf_rows_view(pre_rows).push(rows@[i as int]@));
                    match spec_take_leaf_rows(b@.skip(p as int), (n - i - 1) as nat) {
                        Some((rs, rest)) => {
                            assert(leaf_rows_view(pre_rows) + (seq![rows@[i as int]@] + rs)
                                =~= leaf_rows_view(rows@) + rs);
                        },
                        None => {},
                    }
                }
                i += 1;
            },
        }
    }
    proof {
        assert(spec_take_leaf_rows(b@.skip(p as int), 0) == Some(
            (Seq::<LeafRowV>::empty(), b@.skip(p as int)),
        ));
        assert(leaf_rows_view(rows@) + Seq::<LeafRowV>::empty() =~= leaf_rows_view(rows@));
    }
    Some((rows, p))
}

#[verifier::rlimit(90)]
fn read_block_rows(b: &[u8], pos: usize, n: u64) -> (r: Option<(Vec<ArchiveBlockInfo>, usize)>)
    requires
        pos <= b@.len(),
    ensures
        match r {
            Some((rows, p2)) => {
                &&& spec_take_block_rows(b@.skip(pos as int), n as nat) == Some(
                    (block_rows_view(rows@), b@.skip(p2 as int)),
                )
                &&& pos <= p2 <= b@.len()
                &&& forall|i: int|
                    0 <= i < rows@.len() ==> nonneg_block_row(#[trigger] block_rows_view(rows@)[i])
            },
            None => spec_take_block_rows(b@.skip(pos as int), n as nat) is None,
        },
{
    let mut rows: Vec<ArchiveBlockInfo> = Vec::new();
    let mut p = pos;
    let mut i: u64 = 0;
    while i < n
        invariant
            i <= n,
            pos <= p <= b@.len(),
            rows@.len() == i,
            forall|j: int|
                0 <= j < rows@.len() ==> nonneg_block_row(#[trigger] block_rows_view(rows@)[j]),
            spec_take_block_rows(b@.skip(pos as int), n as nat) == (match spec_take_block_rows(
                b@.skip(p as int),
                (n - i) as nat,
            ) {
                None => None::<(Seq<BlockRowV>, Seq<u8>)>,
                Some((rs, rest)) => Some((block_rows_view(rows@) + rs, rest)),
            }),
        decreases n - i,
    {
        let ghost pre_rows = rows@;
        match read_block_row(b, p) {
            None => {
                proof {
                    assert(spec_take_block_rows(b@.skip(p as int), (n - i) as nat) is None);
                }
                return None;
            },
            Some((row, p2)) => {
                proof {
                    let tail = b@.skip(p2 as int);
                    assert(spec_take_block_rows(b@.skip(p as int), (n - i) as nat) == (
                    match spec_take_block_rows(tail, (n - i - 1) as nat) {
                        None => None::<(Seq<BlockRowV>, Seq<u8>)>,
                        Some((rs, rest)) => Some((seq![row@] + rs, rest)),
                    }));
                }
                rows.push(row);
                p = p2;
                proof {
                    assert(block_rows_view(rows@) =~= block_rows_view(pre_rows).push(
                        rows@[i as int]@,
                    ));
                    match spec_take_block_rows(b@.skip(p as int), (n - i - 1) as nat) {
                        Some((rs, rest)) => {
                            assert(block_rows_view(pre_rows) + (seq![rows@[i as int]@] + rs)
                                =~= block_rows_view(rows@) + rs);
                        },
                        None => {},
                    }
                }
                i += 1;
            },
        }
    }
    proof {
        assert(spec_take_block_rows(b@.skip(p as int), 0) == Some(
            (Seq::<BlockRowV>::empty(), b@.skip(p as int)),
        ));
        assert(block_rows_view(rows@) + Seq::<BlockRowV>::empty() =~= block_rows_view(rows@));
    }
    Some((rows, p))
}

/// Re-hydrates the three tables from index bytes.  Succeeds exactly on byte
/// strings the spec-level parser accepts, and returns exactly the parsed
/// tables; anything else is a `BadArchive`.
#[verifier::rlimit(90)]
pub fn decode_index(b: &[u8]) -> (r: Result<
    (Vec<ArchiveFileEntry>, Vec<ArchiveFolderLeafEntry>, Vec<ArchiveBlockInfo>),
    ArchiveError,
>)
    ensures
        match r {
            Ok((files, leaves, blocks)) => {
                &&& spec_parse_index(b@) == Some(
                    IndexV {
                        files: file_rows_view(files@),
                        leaves: leaf_rows_view(leaves@),
                        blocks: block_rows_view(blocks@),
                    },
                )
                &&& forall|i: int|
                    0 <= i < files@.len() ==> nonneg_file_row(#[trigger] files@[i]@)
                &&& forall|i: int|
                    0 <= i < blocks@.len() ==> nonneg_block_row(#[trigger] blocks@[i]@)
            },
            Err(e) => spec_parse_index(b@) is None && e matches ArchiveError::BadArchive { .. },
        },
{
    proof {
        assert(b@.skip(0) =~= b@);
    }
    let bad = || -> (e: ArchiveError)
        ensures
            e matches ArchiveError::BadArchive { .. },
        { ArchiveError::BadArchive { reason: String::from_str("malformed index") } };
    let (nf, p1) = match read_u64(b, 0) {
        None => { return Err(bad()) },
        Some(v) => v,
    };
    let (files, p2) = match read_file_rows(b, p1, nf) {
        None => { return Err(bad()) },
        Some(v) => v,
    };
    let (nl, p3) = match read_u64(b, p2) {
        None => { return Err(bad()) },
        Some(v) => v,
    };
    let (leaves, p4) = match read_leaf_rows(b, p3, nl) {
        None => { return Err(bad()) },
        Some(v) => v,
    };
    let (nb, p5) = match read_u64(b, p4) {
        None => { return Err(bad()) },
        Some(v) => v,
    };
    let (blocks, p6) = match read_block_rows(b, p5, nb) {
        None => { return Err(bad()) },
        Some(v) => v,
    };
    if p6 != b.len() {
        return Err(bad());
    }
    proof {
        assert(b@.skip(p6 as int).len() == 0);
        assert(spec_take_u64(b@) == Some((nf, b@.skip(p1 as int))));
        assert(spec_take_file_rows(b@.skip(p1 as int), nf as nat) == Some(
            (file_rows_view(files@), b@.skip(p2 as int)),
        ));
        assert(spec_parse_index(b@) == Some(
            IndexV {
                files: file_rows_view(files@),
                leaves: leaf_rows_view(leaves@),
                blocks: block_rows_view(blocks@),
            },
        ));
        assert forall|i: int| 0 <= i < files@.len() implies nonneg_file_row(
            #[trigger] files@[i]@,
        ) by {
            assert(file_rows_view(files@)[i] == files@[i]@);
        }
        assert forall|i: int| 0 <= i < blocks@.len() implies nonneg_block_row(
            #[trigger] blocks@[i]@,
        ) by {
            assert(block_rows_view(blocks@)[i] == blocks@[i]@);
        }
    }
    Ok((files, leaves, blocks))
}

} // verus!
