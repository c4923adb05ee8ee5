//! The archive writer: packs input files into blocks, compresses each block
//! and the index, and composes the final archive bytes.  Its contract states
//! that the produced archive opens to a valid index from which every input
//! file's bytes and every leaf directory can be restored exactly.

use crate::codec::{compress_with, spec_label_of_codec, spec_unpack, Codec};
use crate::errors::ArchiveError;
use crate::index::{encode_index, nonneg_block_row, nonneg_file_row};
use crate::layout::{
    blocks_concat, blocks_len_prefix, lemma_blocks_concat_push, spec_archive_model,
    spec_content_of, spec_find_file,
};
use crate::pack::{
    block_contiguous, distinct_meta_names, meta_of_placement, metas_of_placements, metas_view,
    placements_total, placements_view, plan_in_order, plan_metas, plan_view, sort_by_size,
    valid_plan, FileMeta, FileMetaV, Placement, PlacementV,
};
use crate::rows::{
    block_rows_view, contiguous_blocks, file_rows_view, leaf_rows_view, ArchiveBlockInfo,
    ArchiveFileEntry, ArchiveFolderLeafEntry, BlockRowV, FileRowV, IndexV, LeafRowV,
};
use crate::wire::{push_u64, spec_u64_to_be_bytes};
use vstd::prelude::*;
use vstd::string::StringExecFns;

verus! {

/// One file handed to the writer: its archive-relative name and its bytes.
#[derive(Debug, Clone, PartialEq, Eq)]
pub struct InputFile {
    pub name: String,
    pub data: Vec<u8>,
}

/// Spec-level model of an input file.
pub ghost struct InputFileV {
    pub name: Seq<char>,
    pub data: Seq<u8>,
}

impl View for InputFile {
    type V = InputFileV;

    open spec fn view(&self) -> InputFileV {
        InputFileV { name: self.name@, data: self.data@ }
    }
}

/// The models of a sequence of input files.
pub open spec fn inputs_view(s: Seq<InputFile>) -> Seq<InputFileV> {
    s.map_values(|f: InputFile| f@)
}

/// The models of a sequence of byte vectors.
pub open spec fn vecs_view(s: Seq<Vec<u8>>) -> Seq<Seq<u8>> {
    s.map_values(|v: Vec<u8>| v@)
}

/// The name views of a sequence of strings.
pub open spec fn names_view(s: Seq<String>) -> Seq<Seq<char>> {
    s.map_values(|n: String| n@)
}

/// Pairwise-distinct input names.
pub open spec fn distinct_input_names(inputs: Seq<InputFileV>) -> bool {
    forall|i: int, j: int|
        0 <= i < j < inputs.len() ==> (#[trigger] inputs[i]).name != (#[trigger] inputs[j]).name
}

/// Pairwise-distinct names.
pub open spec fn distinct_names(names: Seq<Seq<char>>) -> bool {
    forall|i: int, j: int| 0 <= i < j < names.len() ==> names[i] != names[j]
}

/// The first input with the given name, if any.
pub open spec fn spec_find_input(inputs: Seq<InputFileV>, name: Seq<char>) -> Option<InputFileV>
    decreases inputs.len(),
{
    if inputs.len() == 0 {
        None
    } else if inputs[0].name == name {
        Some(inputs[0])
    } else {
        spec_find_input(inputs.drop_first(), name)
    }
}

/// With distinct names, looking up any input's name yields that input.
pub proof fn lemma_find_input_unique(inputs: Seq<InputFileV>, i: int)
    requires
        0 <= i < inputs.len(),
        distinct_input_names(inputs),
    ensures
        spec_find_input(inputs, inputs[i].name) == Some(inputs[i]),
    decreases inputs.len(),
{
    if i == 0 {
    } else {
        assert(inputs[0].name != inputs[i].name);
        assert(inputs.drop_first()[i - 1] == inputs[i]);
        assert(distinct_input_names(inputs.drop_first())) by {
            assert forall|a: int, b: int|
                0 <= a < b < inputs.drop_first().len() implies (#[trigger] inputs.drop_first()[a]).name
                != (#[trigger] inputs.drop_first()[b]).name by {
                assert(inputs.drop_first()[a] == inputs[a + 1]);
                assert(inputs.drop_first()[b] == inputs[b + 1]);
            }
        }
        lemma_find_input_unique(inputs.drop_first(), i - 1);
    }
}

/// Skipping a prefix without the sought name does not change the lookup.
proof fn lemma_find_input_skip(inputs: Seq<InputFileV>, name: Seq<char>, i: int)
    requires
        0 <= i <= inputs.len(),
        forall|j: int| 0 <= j < i ==> (#[trigger] inputs[j]).name != name,
    ensures
        spec_find_input(inputs, name) == spec_find_input(inputs.skip(i), name),
    decreases i,
{
    if i == 0 {
        assert(inputs.skip(0) =~= inputs);
    } else {
        assert(inputs[0].name != name);
        assert forall|j: int| 0 <= j < i - 1 implies (#[trigger] inputs.drop_first()[j]).name
            != name by {
            assert(inputs.drop_first()[j] == inputs[j + 1]);
        }
        lemma_find_input_skip(inputs.drop_first(), name, i - 1);
        assert(inputs.drop_first().skip(i - 1) =~= inputs.skip(i));
    }
}

/// Finds the first input with the given name.
fn find_input<'a>(inputs: &'a Vec<InputFile>, name: &String) -> (r: Option<&'a InputFile>)
    ensures
        match r {
            Some(f) => spec_find_input(inputs_view(inputs@), name@) == Some(f@),
            None => spec_find_input(inputs_view(inputs@), name@) is None,
        },
{
    let ghost iv = inputs_view(inputs@);
    let mut i: usize = 0;
    while i < inputs.len()
        invariant
            i <= inputs@.len(),
            iv == inputs_view(inputs@),
            iv.len() == inputs@.len(),
            forall|j: int| 0 <= j < inputs@.len() ==> iv[j] == inputs@[j]@,
            forall|j: int| 0 <= j < i ==> (#[trigger] iv[j]).name != name@,
        decreases inputs@.len() - i,
    {
        if inputs[i].name == *name {
            proof {
                lemma_find_input_skip(iv, name@, i as int);
                assert(iv.skip(i as int)[0] == iv[i as int]);
            }
            return Some(&inputs[i]);
        }
        i += 1;
    }
    proof {
        lemma_find_input_skip(iv, name@, inputs@.len() as int);
        assert(iv.skip(iv.len() as int) =~= Seq::<InputFileV>::empty());
    }
    None
}

/// A block payload restores each of its placements to the named input's
/// bytes: the slice at the placement's range is that input's whole data.
pub open spec fn block_serves(raw: Seq<u8>, block: Seq<PlacementV>, inputs: Seq<InputFileV>) -> bool {
    &&& raw.len() == placements_total(block)
    &&& forall|k: int|
        0 <= k < block.len() ==> (spec_find_input(inputs, (#[trigger] block[k]).name)
            matches Some(inp) && inp.data == raw.subrange(
            block[k].offset,
            block[k].offset + block[k].size,
        ))
}

/// A compressed block whose decompression serves its placements.
pub open spec fn block_comp_serves(
    cb: Seq<u8>,
    block: Seq<PlacementV>,
    inputs: Seq<InputFileV>,
    codec: Codec,
) -> bool {
    match spec_unpack(codec, cb) {
        None => false,
        Some(raw) => block_serves(raw, block, inputs),
    }
}

/// A block whose placements all name an input of exactly their size.
pub open spec fn block_feasible(block: Seq<PlacementV>, inputs: Seq<InputFileV>) -> bool {
    forall|k: int|
        0 <= k < block.len() ==> (spec_find_input(inputs, (#[trigger] block[k]).name)
            matches Some(inp) && inp.data.len() == block[k].size)
}

/// Concatenates the placements' source bytes in placement order, yielding
/// the block's uncompressed payload.
#[verifier::rlimit(100)]
fn build_payload(block: &Vec<Placement>, inputs: &Vec<InputFile>) -> (payload: Vec<u8>)
    requires
        block_contiguous(placements_view(block@)),
        block_feasible(placements_view(block@), inputs_view(inputs@)),
    ensures
        block_serves(payload@, placements_view(block@), inputs_view(inputs@)),
{
    let ghost bv = placements_view(block@);
    let mut payload: Vec<u8> = Vec::new();
    proof {
        assert(bv.take(0) =~= Seq::<PlacementV>::empty());
    }
    let mut k: usize = 0;
    while k < block.len()
        invariant
            k <= block@.len(),
            bv == placements_view(block@),
            bv.len() == block@.len(),
            forall|j: int| 0 <= j < block@.len() ==> bv[j] == block@[j]@,
            block_contiguous(bv),
            block_feasible(bv, inputs_view(inputs@)),
            payload@.len() == placements_total(bv.take(k as int)),
            forall|j: int|
                0 <= j < k ==> (spec_find_input(inputs_view(inputs@), (#[trigger] bv[j]).name)
                    matches Some(inp) && inp.data == payload@.subrange(
                    bv[j].offset,
                    bv[j].offset + bv[j].size,
                )),
        decreases block@.len() - k,
    {
        let p = &block[k];
        let inp = match find_input(inputs, &p.name) {
            Some(f) => f,
            None => {
                proof {
                    assert(spec_find_input(inputs_view(inputs@), bv[k as int].name) is Some);
                    assert(false);
                }
                return Vec::new();
            },
        };
        if inp.data.len() as u64 != p.size {
            proof {
                assert(false);
            }
            return Vec::new();
        }
        let ghost pre = payload@;
        payload.extend_from_slice(inp.data.as_slice());
        proof {
            assert(bv.take(k + 1).drop_last() =~= bv.take(k as int));
            assert(bv.take(k + 1).last() == bv[k as int]);
            assert(bv[k as int].offset == placements_total(bv.take(k as int)));
            assert(payload@.len() == placements_total(bv.take(k + 1)));
            assert(payload@.subrange(bv[k as int].offset, bv[k as int].offset + bv[k as int].size)
                =~= inp.data@);
            lemma_payload_slices_stable(
                bv,
                inputs_view(inputs@),
                pre,
                payload@,
                k as int,
            );
        }
        k += 1;
    }
    proof {
        assert(bv.take(bv.len() as int) =~= bv);
    }
    payload
}

/// Compresses every planned block; block `b` of the result decompresses to
/// block `b`'s payload.
fn compress_blocks(plan: &Vec<Vec<Placement>>, inputs: &Vec<InputFile>, codec: Codec) -> (comp: Vec<
    Vec<u8>,
>)
    requires
        forall|b: int| 0 <= b < plan@.len() ==> block_contiguous(#[trigger] plan_view(plan@)[b]),
        forall|b: int|
            0 <= b < plan@.len() ==> block_feasible(
                #[trigger] plan_view(plan@)[b],
                inputs_view(inputs@),
            ),
    ensures
        comp@.len() == plan@.len(),
        forall|b: int|
            0 <= b < plan@.len() ==> block_comp_serves(
                #[trigger] vecs_view(comp@)[b],
                plan_view(plan@)[b],
                inputs_view(inputs@),
                codec,
            ),
{
    let mut comp: Vec<Vec<u8>> = Vec::new();
    let mut b: usize = 0;
    while b < plan.len()
        invariant
            b <= plan@.len(),
            comp@.len() == b,
            forall|j: int| 0 <= j < plan@.len() ==> block_contiguous(#[trigger] plan_view(plan@)[j]),
            forall|j: int|
                0 <= j < plan@.len() ==> block_feasible(
                    #[trigger] plan_view(plan@)[j],
                    inputs_view(inputs@),
                ),
            forall|j: int|
                0 <= j < b ==> block_comp_serves(
                    #[trigger] vecs_view(comp@)[j],
                    plan_view(plan@)[j],
                    inputs_view(inputs@),
                    codec,
                ),
        decreases plan@.len() - b,
    {
        let ghost pre = vecs_view(comp@);
        proof {
            assert(plan_view(plan@)[b as int] == placements_view(plan@[b as int]@));
        }
        let payload = build_payload(&plan[b], inputs);
        let cb = match compress_with(payload.as_slice(), codec) {
            Ok(c) => c,
            Err(_) => {
                proof {
                    assert(false);
                }
                return Vec::new();
            },
        };
        comp.push(cb);
        proof {
            assert(vecs_view(comp@) =~= pre.push(comp@[b as int]@));
            assert(vecs_view(comp@)[b as int] == comp@[b as int]@);
            assert forall|j: int| 0 <= j < b implies vecs_view(comp@)[j] == pre[j] by {}
        }
        b += 1;
    }
    comp
}

/// The file row recording one placement in block `b`.
pub open spec fn row_of_placement(p: PlacementV, b: int) -> FileRowV {
    FileRowV { name: p.name, block: b, offset: p.offset, size: p.size }
}

/// The row stands for some placement of the plan, in the block it names.
pub open spec fn row_in_plan(row: FileRowV, plan: Seq<Seq<PlacementV>>) -> bool {
    exists|b: int, k: int|
        0 <= b < plan.len() && 0 <= k < plan[b].len() && row == row_of_placement(
            #[trigger] plan[b][k],
            b,
        )
}

/// The file a row stands for.
pub open spec fn meta_of_row(r: FileRowV) -> FileMetaV {
    FileMetaV { name: r.name, size: r.size }
}

/// The files the rows stand for, in row order.
pub open spec fn metas_of_rows(rows: Seq<FileRowV>) -> Seq<FileMetaV> {
    rows.map_values(|r: FileRowV| meta_of_row(r))
}

/// Builds the file rows of the index from the placement plan: one row per
/// placement, in block order then placement order, recording its block,
/// offset and size.
#[verifier::rlimit(100)]
fn rows_from_plan(plan: &Vec<Vec<Placement>>, budget: Ghost<int>) -> (rows: Vec<ArchiveFileEntry>)
    requires
        valid_plan(plan_view(plan@), budget@),
        budget@ <= i64::MAX,
        plan_view(plan@).len() <= i64::MAX,
        forall|b: int, k: int|
            0 <= b < plan_view(plan@).len() && 0 <= k < plan_view(plan@)[b].len() ==> ((
            #[trigger] plan_view(plan@)[b][k]).size <= i64::MAX && plan_view(
                plan@,
            )[b][k].name.len() > 0),
    ensures
        metas_of_rows(file_rows_view(rows@)) == plan_metas(plan_view(plan@)),
        forall|j: int|
            0 <= j < rows@.len() ==> row_in_plan(
                #[trigger] file_rows_view(rows@)[j],
                plan_view(plan@),
            ),
        forall|j: int|
            0 <= j < rows@.len() ==> crate::rows::valid_file_row(
                #[trigger] file_rows_view(rows@)[j],
                plan@.len() as int,
            ),
{
    let ghost pv = plan_view(plan@);
    let mut rows: Vec<ArchiveFileEntry> = Vec::new();
    proof {
        assert(metas_of_rows(file_rows_view(rows@)) =~= plan_metas(pv.take(0)));
    }
    let mut b: usize = 0;
    while b < plan.len()
        invariant
            b <= plan@.len(),
            pv == plan_view(plan@),
            pv.len() == plan@.len(),
            forall|j: int| 0 <= j < plan@.len() ==> pv[j] == placements_view(plan@[j]@),
            valid_plan(pv, budget@),
            budget@ <= i64::MAX,
            pv.len() <= i64::MAX,
            forall|b2: int, k2: int|
                0 <= b2 < pv.len() && 0 <= k2 < pv[b2].len() ==> ((#[trigger] pv[b2][k2]).size
                    <= i64::MAX && pv[b2][k2].name.len() > 0),
            metas_of_rows(file_rows_view(rows@)) == plan_metas(pv.take(b as int)),
            forall|j: int|
                0 <= j < rows@.len() ==> row_in_plan(#[trigger] file_rows_view(rows@)[j], pv),
            forall|j: int|
                0 <= j < rows@.len() ==> crate::rows::valid_file_row(
                    #[trigger] file_rows_view(rows@)[j],
                    plan@.len() as int,
                ),
        decreases plan@.len() - b,
    {
        let blk = &plan[b];
        let ghost bv = placements_view(blk@);
        let mut k: usize = 0;
        proof {
            assert(bv == pv[b as int]);
            assert(bv.take(0) =~= Seq::<PlacementV>::empty());
            assert(metas_of_placements(bv.take(0)) =~= Seq::<FileMetaV>::empty());
            assert(metas_of_rows(file_rows_view(rows@)) =~= plan_metas(pv.take(b as int))
                + metas_of_placements(bv.take(0)));
        }
        while k < blk.len()
            invariant
                b < plan@.len(),
                k <= blk@.len(),
                pv == plan_view(plan@),
                pv.len() == plan@.len(),
                bv == pv[b as int],
                bv == placements_view(blk@),
                bv.len() == blk@.len(),
                forall|j: int| 0 <= j < blk@.len() ==> bv[j] == blk@[j]@,
                valid_plan(pv, budget@),
                budget@ <= i64::MAX,
                pv.len() <= i64::MAX,
                forall|b2: int, k2: int|
                    0 <= b2 < pv.len() && 0 <= k2 < pv[b2].len() ==> ((#[trigger] pv[b2][k2]).size
                        <= i64::MAX && pv[b2][k2].name.len() > 0),
                metas_of_rows(file_rows_view(rows@)) == plan_metas(pv.take(b as int))
                    + metas_of_placements(bv.take(k as int)),
                forall|j: int|
                    0 <= j < rows@.len() ==> row_in_plan(#[trigger] file_rows_view(rows@)[j], pv),
                forall|j: int|
                    0 <= j < rows@.len() ==> crate::rows::valid_file_row(
                        #[trigger] file_rows_view(rows@)[j],
                        plan@.len() as int,
                    ),
            decreases blk@.len() - k,
        {
            let p = &blk[k];
            proof {
                assert(bv[k as int] == blk@[k as int]@);
                assert(bv[k as int].size <= i64::MAX && bv[k as int].name.len() > 0);
                // The placement's whole range fits the format's limit.
                if bv.len() >= 2 {
                    assert(placements_total(bv) <= budget@);
                    crate::pack::lemma_placement_in_range(bv, k as int, bv.len() as int);
                    assert(bv.take(bv.len() as int) =~= bv);
                } else {
                    assert(k == 0);
                    assert(bv.take(0) =~= Seq::<PlacementV>::empty());
                    assert(bv[0].offset == placements_total(bv.take(0)));
                }
                assert(0 <= bv[k as int].offset);
                assert(bv[k as int].offset + bv[k as int].size <= i64::MAX);
            }
            let ghost pre = file_rows_view(rows@);
            let row = ArchiveFileEntry {
                name: p.name.clone(),
                block: b as i64,
                offset: p.offset as i64,
                size: p.size as i64,
            };
            rows.push(row);
            proof {
                assert(b < pv.len() <= i64::MAX);
                assert((b as i64) as int == b as int);
                assert((p.offset as i64) as int == p.offset as int);
                assert((p.size as i64) as int == p.size as int);
                assert(file_rows_view(rows@) =~= pre.push(rows@[rows@.len() - 1]@));
                let rv = rows@[rows@.len() - 1]@;
                assert(rv == row_of_placement(bv[k as int], b as int));
                assert(meta_of_row(rv) == meta_of_placement(bv[k as int]));
                assert(metas_of_rows(file_rows_view(rows@)) =~= metas_of_rows(pre).push(
                    meta_of_row(rv),
                ));
                assert(metas_of_placements(bv.take(k + 1)) =~= metas_of_placements(
                    bv.take(k as int),
                ).push(meta_of_placement(bv[k as int])));
                assert(metas_of_rows(file_rows_view(rows@)) =~= plan_metas(pv.take(b as int))
                    + metas_of_placements(bv.take(k + 1)));
                assert forall|j: int| 0 <= j < rows@.len() - 1 implies row_in_plan(
                    #[trigger] file_rows_view(rows@)[j],
                    pv,
                ) && crate::rows::valid_file_row(
                    file_rows_view(rows@)[j],
                    plan@.len() as int,
                ) by {
                    assert(file_rows_view(rows@)[j] == pre[j]);
                }
            }
            k += 1;
        }
        proof {
            assert(bv.take(bv.len() as int) =~= bv);
            crate::pack::lemma_plan_metas_push(pv.take(b as int), pv[b as int]);
            assert(pv.take(b + 1) =~= pv.take(b as int).push(pv[b as int]));
            assert(metas_of_rows(file_rows_view(rows@)) =~= plan_metas(pv.take(b + 1)));
        }
        b += 1;
    }
    proof {
        assert(pv.take(pv.len() as int) =~= pv);
    }
    rows
}

/// Builds the leaf rows from the leaf directory names.
fn leaf_rows_from_names(leaves: &Vec<String>) -> (r: Vec<ArchiveFolderLeafEntry>)
    ensures
        r@.len() == leaves@.len(),
        forall|i: int|
            0 <= i < leaves@.len() ==> (#[trigger] leaf_rows_view(r@)[i]).name == names_view(
                leaves@,
            )[i],
{
    let mut rows: Vec<ArchiveFolderLeafEntry> = Vec::new();
    let mut i: usize = 0;
    while i < leaves.len()
        invariant
            i <= leaves@.len(),
            rows@.len() == i,
            forall|j: int|
                0 <= j < i ==> (#[trigger] leaf_rows_view(rows@)[j]).name == names_view(leaves@)[j],
        decreases leaves@.len() - i,
    {
        let ghost pre = leaf_rows_view(rows@);
        rows.push(ArchiveFolderLeafEntry { name: leaves[i].clone() });
        proof {
            assert(leaf_rows_view(rows@) =~= pre.push(rows@[i as int]@));
            assert forall|j: int| 0 <= j < i implies (#[trigger] leaf_rows_view(rows@)[j]).name
                == names_view(leaves@)[j] by {
                assert(leaf_rows_view(rows@)[j] == pre[j]);
            }
            assert(names_view(leaves@)[i as int] == leaves@[i as int]@);
        }
        i += 1;
    }
    rows
}

/// Builds the block rows: dense ids, compressed sizes, and blob-relative
/// offsets that are the running sum of the compressed sizes — the layout
/// invariant of the blob.
fn block_rows_from_comp(comp: &Vec<Vec<u8>>, codec: Codec) -> (r: Result<
    Vec<ArchiveBlockInfo>,
    ArchiveError,
>)
    requires
        comp@.len() <= i64::MAX,
    ensures
        r matches Ok(rows) ==> {
            &&& rows@.len() == comp@.len()
            &&& forall|b: int|
                0 <= b < comp@.len() ==> #[trigger] block_rows_view(rows@)[b] == (crate::rows::BlockRowV {
                    id: b,
                    size: vecs_view(comp@)[b].len() as int,
                    offset: blocks_len_prefix(vecs_view(comp@), b),
                    compression_type: spec_label_of_codec(codec),
                })
        },
        r matches Err(e) ==> (e matches ArchiveError::ArchiveWriteFailed { stage, cause } && stage@
            == "layout"@ && cause@ == "blob too large for format"@),
        comp@.len() == 0 ==> r is Ok,
{
    let mut rows: Vec<ArchiveBlockInfo> = Vec::new();
    let mut off: u64 = 0;
    let mut b: usize = 0;
    while b < comp.len()
        invariant
            b <= comp@.len(),
            comp@.len() <= i64::MAX,
            rows@.len() == b,
            off <= i64::MAX as u64,
            off == blocks_len_prefix(vecs_view(comp@), b as int),
            forall|j: int|
                0 <= j < b ==> #[trigger] block_rows_view(rows@)[j] == (crate::rows::BlockRowV {
                    id: j,
                    size: vecs_view(comp@)[j].len() as int,
                    offset: blocks_len_prefix(vecs_view(comp@), j),
                    compression_type: spec_label_of_codec(codec),
                }),
        decreases comp@.len() - b,
    {
        let sz = comp[b].len() as u64;
        if sz > i64::MAX as u64 - off {
            return Err(
                ArchiveError::ArchiveWriteFailed {
                    stage: String::from_str("layout"),
                    cause: String::from_str("blob too large for format"),
                },
            );
        }
        let ghost pre = block_rows_view(rows@);
        rows.push(
            ArchiveBlockInfo {
                id: b as i64,
                size: sz as i64,
                offset: off as i64,
                compression_type: crate::codec::label_of_codec(codec),
            },
        );
        proof {
            assert(block_rows_view(rows@) =~= pre.push(rows@[b as int]@));
            assert(vecs_view(comp@)[b as int] == comp@[b as int]@);
            assert(block_rows_view(rows@)[b as int] == (crate::rows::BlockRowV {
                id: b as int,
                size: vecs_view(comp@)[b as int].len() as int,
                offset: blocks_len_prefix(vecs_view(comp@), b as int),
                compression_type: spec_label_of_codec(codec),
            }));
            assert forall|j: int| 0 <= j < b implies #[trigger] block_rows_view(rows@)[j]
                == (crate::rows::BlockRowV {
                id: j,
                size: vecs_view(comp@)[j].len() as int,
                offset: blocks_len_prefix(vecs_view(comp@), j),
                compression_type: spec_label_of_codec(codec),
            }) by {
                assert(block_rows_view(rows@)[j] == pre[j]);
            }
        }
        off = off + sz;
        b += 1;
    }
    Ok(rows)
}

/// Composes the final archive: the 8-byte big-endian length of the
/// compressed index, the compressed index, then the blocks in id order.
fn assemble_archive(comp_index: &Vec<u8>, comp_blocks: &Vec<Vec<u8>>) -> (r: Vec<u8>)
    ensures
        r@ == spec_u64_to_be_bytes(comp_index@.len() as u64) + comp_index@ + blocks_concat(
            vecs_view(comp_blocks@),
        ),
        comp_index@.len() < 0x1_0000_0000_0000_0000,
{
    let ghost vv = vecs_view(comp_blocks@);
    let mut out: Vec<u8> = Vec::new();
    push_u64(&mut out, comp_index.len() as u64);
    out.extend_from_slice(comp_index.as_slice());
    let ghost base = out@;
    proof {
        assert(vv.take(0) =~= Seq::<Seq<u8>>::empty());
        assert(out@ =~= base + blocks_concat(vv.take(0)));
    }
    let mut b: usize = 0;
    while b < comp_blocks.len()
        invariant
            b <= comp_blocks@.len(),
            vv == vecs_view(comp_blocks@),
            vv.len() == comp_blocks@.len(),
            forall|j: int| 0 <= j < comp_blocks@.len() ==> vv[j] == comp_blocks@[j]@,
            base == spec_u64_to_be_bytes(comp_index@.len() as u64) + comp_index@,
            out@ == base + blocks_concat(vv.take(b as int)),
        decreases comp_blocks@.len() - b,
    {
        out.extend_from_slice(comp_blocks[b].as_slice());
        proof {
            lemma_blocks_concat_push(vv.take(b as int), vv[b as int]);
            assert(vv.take(b + 1) =~= vv.take(b as int).push(vv[b as int]));
            assert(out@ =~= base + blocks_concat(vv.take(b + 1)));
        }
        b += 1;
    }
    proof {
        assert(vv.take(vv.len() as int) =~= vv);
    }
    out
}

/// Total byte size of the input files.
pub open spec fn inputs_total(inputs: Seq<InputFileV>) -> int
    decreases inputs.len(),
{
    if inputs.len() == 0 {
        0
    } else {
        inputs_total(inputs.drop_last()) + inputs.last().data.len()
    }
}

/// Already-written placement slices survive appending more bytes.
proof fn lemma_payload_slices_stable(
    bv: Seq<PlacementV>,
    iv: Seq<InputFileV>,
    pre: Seq<u8>,
    post: Seq<u8>,
    k: int,
)
    requires
        block_contiguous(bv),
        forall|m: int| 0 <= m < bv.len() ==> 0 <= (#[trigger] bv[m]).size,
        0 <= k <= bv.len(),
        pre.len() == placements_total(bv.take(k)),
        pre.len() <= post.len(),
        forall|t: int| 0 <= t < pre.len() ==> post[t] == pre[t],
        forall|j: int|
            0 <= j < k ==> (spec_find_input(iv, (#[trigger] bv[j]).name) matches Some(inp)
                && inp.data == pre.subrange(bv[j].offset, bv[j].offset + bv[j].size)),
    ensures
        forall|j: int|
            0 <= j < k ==> (spec_find_input(iv, (#[trigger] bv[j]).name) matches Some(inp)
                && inp.data == post.subrange(bv[j].offset, bv[j].offset + bv[j].size)),
{
    assert forall|j: int|
        0 <= j < k implies (spec_find_input(iv, (#[trigger] bv[j]).name) matches Some(inp)
        && inp.data == post.subrange(bv[j].offset, bv[j].offset + bv[j].size)) by {
        crate::pack::lemma_placement_in_range(bv, j, k);
        assert(post.subrange(bv[j].offset, bv[j].offset + bv[j].size) =~= pre.subrange(
            bv[j].offset,
            bv[j].offset + bv[j].size,
        ));
    }
}

/// Every placement of a plan drawn from the inputs names an input of
/// exactly its size, within the format's limits.
proof fn lemma_plan_feasible(
    iv: Seq<InputFileV>,
    metas: Seq<FileMetaV>,
    sorted: Seq<FileMetaV>,
    pv: Seq<Seq<PlacementV>>,
)
    requires
        distinct_input_names(iv),
        metas.len() == iv.len(),
        forall|i: int|
            0 <= i < iv.len() ==> #[trigger] metas[i] == (FileMetaV {
                name: iv[i].name,
                size: iv[i].data.len() as int,
            }),
        forall|i: int| 0 <= i < iv.len() ==> (#[trigger] iv[i]).name.len() > 0,
        forall|i: int| 0 <= i < iv.len() ==> (#[trigger] iv[i]).data.len() <= i64::MAX,
        sorted.to_multiset() == metas.to_multiset(),
        plan_metas(pv) == sorted,
    ensures
        forall|b: int, k: int|
            0 <= b < pv.len() && 0 <= k < pv[b].len() ==> ((#[trigger] pv[b][k]).size <= i64::MAX
                && pv[b][k].name.len() > 0 && (spec_find_input(iv, pv[b][k].name) matches Some(inp)
                && inp.data.len() == pv[b][k].size)),
{
    assert forall|b: int, k: int|
        0 <= b < pv.len() && 0 <= k < pv[b].len() implies ((#[trigger] pv[b][k]).size <= i64::MAX
        && pv[b][k].name.len() > 0 && (spec_find_input(iv, pv[b][k].name) matches Some(inp)
        && inp.data.len() == pv[b][k].size)) by {
        crate::pack::lemma_plan_metas_contains(pv, b, k);
        let m = meta_of_placement(pv[b][k]);
        vstd::seq_lib::to_multiset_contains(sorted, m);
        vstd::seq_lib::to_multiset_contains(metas, m);
        assert(metas.contains(m));
        let a = choose|a: int| 0 <= a < metas.len() && #[trigger] metas[a] == m;
        assert(m.name == iv[a].name && m.size == iv[a].data.len() as int);
        lemma_find_input_unique(iv, a);
    }
}

/// The facts `build_archive` needs of its plan, in one place.
proof fn lemma_build_plan_facts(
    iv: Seq<InputFileV>,
    metas: Seq<FileMetaV>,
    sorted: Seq<FileMetaV>,
    pv: Seq<Seq<PlacementV>>,
    budget: int,
)
    requires
        distinct_input_names(iv),
        metas.len() == iv.len(),
        forall|i: int|
            0 <= i < iv.len() ==> #[trigger] metas[i] == (FileMetaV {
                name: iv[i].name,
                size: iv[i].data.len() as int,
            }),
        forall|i: int| 0 <= i < iv.len() ==> (#[trigger] iv[i]).name.len() > 0,
        forall|i: int| 0 <= i < iv.len() ==> (#[trigger] iv[i]).data.len() <= i64::MAX,
        sorted.to_multiset() == metas.to_multiset(),
        plan_metas(pv) == sorted,
        valid_plan(pv, budget),
        crate::pack::metas_total(sorted) == crate::pack::metas_total(metas),
        crate::pack::metas_total(sorted) <= budget ==> pv.len() <= 1,
    ensures
        forall|b: int, k: int|
            0 <= b < pv.len() && 0 <= k < pv[b].len() ==> ((#[trigger] pv[b][k]).size <= i64::MAX
                && pv[b][k].name.len() > 0 && (spec_find_input(iv, pv[b][k].name) matches Some(inp)
                && inp.data.len() == pv[b][k].size)),
        forall|b: int| 0 <= b < pv.len() ==> block_feasible(#[trigger] pv[b], iv),
        pv.len() <= iv.len(),
        inputs_total(iv) <= budget ==> pv.len() <= 1,
{
    lemma_plan_feasible(iv, metas, sorted, pv);
    assert forall|b: int| 0 <= b < pv.len() implies block_feasible(#[trigger] pv[b], iv) by {}
    crate::pack::lemma_plan_len_le(pv);
    vstd::seq_lib::to_multiset_len(sorted);
    vstd::seq_lib::to_multiset_len(metas);
    lemma_inputs_total(iv, metas);
}

/// The sized-up metas total exactly the inputs' bytes.
proof fn lemma_inputs_total(iv: Seq<InputFileV>, metas: Seq<FileMetaV>)
    requires
        metas.len() == iv.len(),
        forall|i: int|
            0 <= i < iv.len() ==> #[trigger] metas[i] == (FileMetaV {
                name: iv[i].name,
                size: iv[i].data.len() as int,
            }),
    ensures
        crate::pack::metas_total(metas) == inputs_total(iv),
    decreases iv.len(),
{
    if iv.len() > 0 {
        assert forall|i: int| 0 <= i < iv.drop_last().len() implies #[trigger] metas.drop_last()[i]
            == (FileMetaV {
            name: iv.drop_last()[i].name,
            size: iv.drop_last()[i].data.len() as int,
        }) by {
            assert(metas.drop_last()[i] == metas[i]);
            assert(iv.drop_last()[i] == iv[i]);
        }
        lemma_inputs_total(iv.drop_last(), metas.drop_last());
        assert(metas.last() == metas[iv.len() - 1]);
        assert(iv.last() == iv[iv.len() - 1]);
    }
}

/// Total compressed size of the blocks: where the blob ends, relative to its
/// start.
pub open spec fn blob_size(blocks: Seq<BlockRowV>) -> int {
    if blocks.len() == 0 {
        0
    } else {
        blocks.last().offset + blocks.last().size
    }
}

/// What a produced archive promises: it opens to a valid index whose leaves
/// are exactly the given leaf names and whose file rows are as many as the
/// inputs; every input file's exact bytes are restored by looking its name up
/// and slicing its block's decompressed payload; every block carries the
/// chosen codec's label; there are blocks exactly when there are inputs; and
/// the archive ends at the last block.
pub open spec fn archive_restores(
    bytes: Seq<u8>,
    inputs: Seq<InputFileV>,
    leaves: Seq<Seq<char>>,
    codec: Codec,
) -> bool {
    match spec_archive_model(bytes) {
        None => false,
        Some(ix) => {
            &&& ix.leaves =~= leaves.map_values(|n: Seq<char>| LeafRowV { name: n })
            &&& ix.files.len() == inputs.len()
            &&& (ix.blocks.len() == 0 <==> inputs.len() == 0)
            &&& forall|b: int|
                0 <= b < ix.blocks.len() ==> (#[trigger] ix.blocks[b]).compression_type
                    == spec_label_of_codec(codec)
            &&& crate::layout::spec_blob_start(bytes) + blob_size(ix.blocks) == bytes.len()
            &&& forall|i: int|
                0 <= i < inputs.len() ==> (spec_find_file(ix.files, (#[trigger] inputs[i]).name)
                    matches Some(row) && spec_content_of(bytes, ix, row) == Some(inputs[i].data))
        },
    }
}

/// From the packer's conservation facts: the rows list as many files as the
/// inputs, under pairwise-distinct names, and every input's name has a row.
proof fn lemma_rows_serve_inputs(
    iv: Seq<InputFileV>,
    metas: Seq<FileMetaV>,
    sorted: Seq<FileMetaV>,
    rows: Seq<FileRowV>,
)
    requires
        distinct_input_names(iv),
        metas.len() == iv.len(),
        forall|i: int|
            0 <= i < iv.len() ==> #[trigger] metas[i] == (FileMetaV {
                name: iv[i].name,
                size: iv[i].data.len() as int,
            }),
        sorted.to_multiset() == metas.to_multiset(),
        distinct_meta_names(sorted),
        metas_of_rows(rows) == sorted,
    ensures
        rows.len() == iv.len(),
        forall|a: int, b: int|
            0 <= a < b < rows.len() ==> (#[trigger] rows[a]).name != (#[trigger] rows[b]).name,
        forall|j: int| 0 <= j < iv.len() ==> spec_find_file(rows, (#[trigger] iv[j]).name) is Some,
{
    vstd::seq_lib::to_multiset_len(sorted);
    vstd::seq_lib::to_multiset_len(metas);
    assert(metas_of_rows(rows).len() == rows.len());
    assert(rows.len() == iv.len());
    assert forall|a: int, b: int| 0 <= a < b < rows.len() implies (#[trigger] rows[a]).name != (
    #[trigger] rows[b]).name by {
        assert(metas_of_rows(rows)[a] == meta_of_row(rows[a]));
        assert(metas_of_rows(rows)[b] == meta_of_row(rows[b]));
        assert(sorted[a].name != sorted[b].name);
    }
    assert forall|j: int| 0 <= j < iv.len() implies spec_find_file(
        rows,
        (#[trigger] iv[j]).name,
    ) is Some by {
        let m = metas[j];
        assert(metas.contains(m));
        vstd::seq_lib::to_multiset_contains(metas, m);
        vstd::seq_lib::to_multiset_contains(sorted, m);
        assert(sorted.contains(m));
        let a = choose|a: int| 0 <= a < sorted.len() && #[trigger] sorted[a] == m;
        assert(metas_of_rows(rows)[a] == meta_of_row(rows[a]));
        assert(rows[a].name == iv[j].name);
        crate::layout::lemma_find_file_exists(rows, iv[j].name);
    }
}

/// Packs the inputs into compressed blocks, writes the index, and composes
/// Packs the inputs into compressed blocks, writes the index, and composes
/// the archive bytes.  Succeeds whenever the inputs fit the format (it can
/// fail only if the compressed blob would outgrow the index's 64-bit signed
/// offsets), and then the archive opens to a valid index that restores every
/// input file and exactly the given leaf directories.
#[verifier::rlimit(100)]
pub fn build_archive(
    inputs: &Vec<InputFile>,
    leaves: &Vec<String>,
    codec: Codec,
    block_budget: u64,
) -> (r: Result<Vec<u8>, ArchiveError>)
    requires
        distinct_input_names(inputs_view(inputs@)),
        distinct_names(names_view(leaves@)),
        forall|i: int| 0 <= i < inputs@.len() ==> (#[trigger] inputs_view(inputs@)[i]).name.len() > 0,
        forall|i: int|
            0 <= i < inputs@.len() ==> (#[trigger] inputs_view(inputs@)[i]).data.len() <= i64::MAX,
        inputs@.len() <= i64::MAX,
        block_budget <= i64::MAX as u64,
    ensures
        r matches Ok(bytes) ==> archive_restores(
            bytes@,
            inputs_view(inputs@),
            names_view(leaves@),
            codec,
        ),
        r matches Err(e) ==> (e matches ArchiveError::ArchiveWriteFailed { stage, cause } && stage@
            == "layout"@ && cause@ == "blob too large for format"@),
        inputs@.len() == 0 ==> r is Ok,
        inputs_total(inputs_view(inputs@)) <= block_budget as int ==> (r matches Ok(bytes)
            ==> spec_archive_model(bytes@)->Some_0.blocks.len() <= 1),
        inputs@.len() == 1 ==> (r matches Ok(bytes) ==> spec_archive_model(
            bytes@,
        )->Some_0.files[0].offset == 0),
{
    let ghost iv = inputs_view(inputs@);
    // Size up the inputs, sort them ascending, plan the blocks.
    let metas = metas_of_inputs(inputs);
    proof {
        assert forall|a: int, b: int|
            0 <= a < b < metas_view(metas@).len() implies (#[trigger] metas_view(
            metas@,
        )[a]).name != (#[trigger] metas_view(metas@)[b]).name by {
            assert(iv[a].name != iv[b].name);
        }
        assert(distinct_meta_names(metas_view(metas@)));
    }
    let sorted = sort_by_size(&metas);
    let plan = plan_in_order(&sorted, block_budget);
    let ghost pv = plan_view(plan@);
    proof {
        lemma_build_plan_facts(
            iv,
            metas_view(metas@),
            metas_view(sorted@),
            pv,
            block_budget as int,
        );
    }
    let comp = compress_blocks(&plan, inputs, codec);
    let file_rows = rows_from_plan(&plan, Ghost(block_budget as int));
    let leaf_rows = leaf_rows_from_names(leaves);
    let block_rows = match block_rows_from_comp(&comp, codec) {
        Ok(rs) => rs,
        Err(e) => {
            proof {
                if iv.len() == 0 {
                    assert(plan_metas(pv).len() == 0);
                    if pv.len() > 0 {
                        crate::pack::lemma_plan_nonempty(pv);
                    }
                    assert(comp@.len() == 0);
                }
            }
            return Err(e);
        },
    };
    proof {
        lemma_rows_serve_inputs(
            iv,
            metas_view(metas@),
            metas_view(sorted@),
            file_rows_view(file_rows@),
        );
    }
    // Serialize and compress the index, then stitch the archive together.
    let index_bytes = encode_rows(
        &file_rows,
        &leaf_rows,
        &block_rows,
        &comp,
        codec,
        Ghost(plan@.len() as int),
    );
    let comp_index = match compress_with(index_bytes.as_slice(), Codec::Lz4) {
        Ok(ci) => ci,
        Err(_) => {
            proof {
                assert(false);
            }
            return Err(
                ArchiveError::ArchiveWriteFailed {
                    stage: String::from_str("layout"),
                    cause: String::from_str("blob too large for format"),
                },
            );
        },
    };
    let out = assemble_archive(&comp_index, &comp);
    proof {
        let ix = IndexV {
            files: file_rows_view(file_rows@),
            leaves: leaf_rows_view(leaf_rows@),
            blocks: block_rows_view(block_rows@),
        };
        if iv.len() == 0 {
            assert(plan_metas(pv).len() == 0);
            if pv.len() > 0 {
                crate::pack::lemma_plan_nonempty(pv);
            }
        }
        if pv.len() == 0 {
            assert(plan_metas(pv).len() == 0);
        }
        lemma_build_archive_ok(
            out@,
            iv,
            names_view(leaves@),
            pv,
            vecs_view(comp@),
            comp_index@,
            index_bytes@,
            ix,
            codec,
            block_budget as int,
        );
        if inputs_total(iv) <= block_budget as int {
            assert(ix.blocks.len() == comp@.len() == plan@.len());
            assert(pv.len() <= 1);
        }
        if iv.len() == 1 {
            // The sole file's row sits at offset 0 of the sole block.
            assert(plan_metas(pv).len() == 1);
            if pv.len() == 0 {
                assert(plan_metas(pv).len() == 0);
            }
            assert(pv.len() >= 1);
            crate::pack::lemma_plan_len_le(pv);
            assert(pv.len() == 1);
            assert(pv.drop_last() =~= Seq::<Seq<PlacementV>>::empty());
            assert(plan_metas(pv) == plan_metas(pv.drop_last()) + metas_of_placements(pv.last()));
            assert(plan_metas(pv.drop_last()).len() == 0);
            assert(pv[0].len() == 1);
            assert(ix.files.len() == 1);
            assert(row_in_plan(ix.files[0], pv));
            let (b, k) = choose|b: int, k: int|
                0 <= b < pv.len() && 0 <= k < pv[b].len() && ix.files[0] == row_of_placement(
                    #[trigger] pv[b][k],
                    b,
                );
            assert(b == 0 && k == 0);
            assert(block_contiguous(pv[0]));
            assert(pv[0].take(0) =~= Seq::<PlacementV>::empty());
            assert(pv[0][0].offset == placements_total(pv[0].take(0)));
            assert(ix.files[0].offset == 0);
        }
    }
    Ok(out)
}

/// An assembled archive opens to its index and restores every input: the
/// An assembled archive opens to its index and restores every input: the
/// write-side composition theorem.
#[verifier::rlimit(100)]
proof fn lemma_build_archive_ok(
    bytes: Seq<u8>,
    iv: Seq<InputFileV>,
    leafnames: Seq<Seq<char>>,
    plan: Seq<Seq<PlacementV>>,
    vv: Seq<Seq<u8>>,
    ci: Seq<u8>,
    dbb: Seq<u8>,
    ix: IndexV,
    codec: Codec,
    budget: int,
)
    requires
        distinct_input_names(iv),
        distinct_names(leafnames),
        valid_plan(plan, budget),
        vv.len() == plan.len(),
        forall|b: int|
            0 <= b < plan.len() ==> block_comp_serves(#[trigger] vv[b], plan[b], iv, codec),
        forall|j: int| 0 <= j < ix.files.len() ==> row_in_plan(#[trigger] ix.files[j], plan),
        forall|j: int|
            0 <= j < ix.files.len() ==> crate::rows::valid_file_row(
                #[trigger] ix.files[j],
                plan.len() as int,
            ),
        forall|j: int|
            0 <= j < iv.len() ==> spec_find_file(ix.files, (#[trigger] iv[j]).name) is Some,
        forall|a: int, b: int|
            0 <= a < b < ix.files.len() ==> (#[trigger] ix.files[a]).name != (
            #[trigger] ix.files[b]).name,
        ix.files.len() == iv.len(),
        ix.leaves.len() == leafnames.len(),
        forall|i: int|
            0 <= i < leafnames.len() ==> (#[trigger] ix.leaves[i]).name == leafnames[i],
        ix.blocks.len() == vv.len(),
        forall|b: int|
            0 <= b < vv.len() ==> #[trigger] ix.blocks[b] == (crate::rows::BlockRowV {
                id: b,
                size: vv[b].len() as int,
                offset: blocks_len_prefix(vv, b),
                compression_type: spec_label_of_codec(codec),
            }),
        crate::codec::lz4_unpack(ci) == Some(dbb),
        crate::index::spec_parse_index(dbb) == Some(ix),
        ci.len() < 0x1_0000_0000_0000_0000,
        bytes == spec_u64_to_be_bytes(ci.len() as u64) + ci + blocks_concat(vv),
        vv.len() == 0 <==> iv.len() == 0,
    ensures
        archive_restores(bytes, iv, leafnames, codec),
        spec_archive_model(bytes) == Some(ix),
{
    crate::layout::lemma_header_len_of_assembled(ci, blocks_concat(vv));
    assert(crate::layout::spec_header_len(bytes) == ci.len());
    assert(bytes.subrange(8, crate::layout::spec_blob_start(bytes)) == ci);
    assert(crate::layout::spec_open_index(bytes) == Some(ix));
    crate::layout::lemma_blocks_concat_len(vv, vv.len() as int);
    assert(vv.take(vv.len() as int) =~= vv);
    assert(contiguous_blocks(ix.blocks)) by {
        if ix.blocks.len() > 0 {
            assert(ix.blocks[0].offset == blocks_len_prefix(vv, 0));
        }
        assert forall|b: int| 0 < b < ix.blocks.len() implies (#[trigger] ix.blocks[b]).offset
            == ix.blocks[b - 1].offset + ix.blocks[b - 1].size by {
            assert(blocks_len_prefix(vv, b) == blocks_len_prefix(vv, b - 1) + vv[b - 1].len());
        }
    }
    assert forall|b: int| 0 <= b < ix.blocks.len() implies crate::layout::spec_blob_start(bytes) + (
    #[trigger] ix.blocks[b]).offset + ix.blocks[b].size <= bytes.len() by {
        assert(blocks_len_prefix(vv, b) + vv[b].len() == blocks_len_prefix(vv, b + 1));
        crate::layout::lemma_blocks_prefix_le(vv, b + 1, vv.len() as int);
    }
    assert forall|b: int| 0 <= b < ix.blocks.len() implies crate::codec::spec_codec_of_label(
        (#[trigger] ix.blocks[b]).compression_type,
    ) is Some by {
        crate::layout::lemma_label_roundtrip(codec);
    }
    assert(crate::layout::spec_index_valid(bytes, ix));
    assert(crate::layout::spec_archive_model(bytes) == Some(ix));
    assert(crate::layout::spec_blob_start(bytes) + blocks_concat(vv).len() == bytes.len());
    assert(bytes.subrange(crate::layout::spec_blob_start(bytes), bytes.len() as int)
        =~= blocks_concat(vv));
    assert forall|i: int| 0 <= i < iv.len() implies (spec_find_file(
        ix.files,
        (#[trigger] iv[i]).name,
    ) matches Some(row) && spec_content_of(bytes, ix, row) == Some(iv[i].data)) by {
        lemma_restores_one(bytes, iv, plan, vv, ix, codec, budget, i);
    }
    assert(ix.leaves =~= leafnames.map_values(|n: Seq<char>| LeafRowV { name: n }));
    // The archive ends exactly at the last block.
    if ix.blocks.len() == 0 {
        assert(blocks_concat(vv).len() == 0);
        assert(blob_size(ix.blocks) == 0);
    } else {
        let n = vv.len() as int;
        assert(ix.blocks.last() == (BlockRowV {
            id: n - 1,
            size: vv[n - 1].len() as int,
            offset: blocks_len_prefix(vv, n - 1),
            compression_type: spec_label_of_codec(codec),
        }));
        assert(blocks_len_prefix(vv, n) == blocks_len_prefix(vv, n - 1) + vv[n - 1].len());
        assert(blob_size(ix.blocks) == blocks_concat(vv).len());
    }
    assert(crate::layout::spec_blob_start(bytes) + blob_size(ix.blocks) == bytes.len());
    assert(archive_restores(bytes, iv, leafnames, codec));
}

/// One input file's bytes are restored from the assembled archive.
#[verifier::rlimit(100)]
proof fn lemma_restores_one(
    bytes: Seq<u8>,
    iv: Seq<InputFileV>,
    plan: Seq<Seq<PlacementV>>,
    vv: Seq<Seq<u8>>,
    ix: IndexV,
    codec: Codec,
    budget: int,
    i: int,
)
    requires
        distinct_input_names(iv),
        valid_plan(plan, budget),
        vv.len() == plan.len(),
        forall|b: int|
            0 <= b < plan.len() ==> block_comp_serves(#[trigger] vv[b], plan[b], iv, codec),
        forall|j: int| 0 <= j < ix.files.len() ==> row_in_plan(#[trigger] ix.files[j], plan),
        forall|j: int|
            0 <= j < iv.len() ==> spec_find_file(ix.files, (#[trigger] iv[j]).name) is Some,
        ix.blocks.len() == vv.len(),
        forall|b: int|
            0 <= b < vv.len() ==> #[trigger] ix.blocks[b] == (crate::rows::BlockRowV {
                id: b,
                size: vv[b].len() as int,
                offset: blocks_len_prefix(vv, b),
                compression_type: spec_label_of_codec(codec),
            }),
        crate::layout::spec_blob_start(bytes) + blocks_concat(vv).len() == bytes.len(),
        bytes.subrange(crate::layout::spec_blob_start(bytes), bytes.len() as int) == blocks_concat(
            vv,
        ),
        0 <= i < iv.len(),
    ensures
        spec_find_file(ix.files, iv[i].name) matches Some(row) && spec_content_of(bytes, ix, row)
            == Some(iv[i].data),
{
    crate::layout::lemma_find_file_exists(ix.files, iv[i].name);
    let row = spec_find_file(ix.files, iv[i].name)->Some_0;
    assert(row.name == iv[i].name);
    let j = choose|j: int| 0 <= j < ix.files.len() && #[trigger] ix.files[j] == row;
    assert(row_in_plan(row, plan));
    let (b, k) = choose|b: int, k: int|
        0 <= b < plan.len() && 0 <= k < plan[b].len() && row == row_of_placement(
            #[trigger] plan[b][k],
            b,
        );
    let block = plan[b];
    let p = block[k];
    assert(block_comp_serves(vv[b], block, iv, codec));
    let raw = spec_unpack(codec, vv[b])->Some_0;
    assert(block_serves(raw, block, iv));
    assert(ix.blocks[b].offset == blocks_len_prefix(vv, b));
    assert(ix.blocks[b].size == vv[b].len() as int);
    lemma_comp_bytes_are_block(bytes, vv, ix, b);
    crate::layout::lemma_label_roundtrip(codec);
    assert(crate::layout::spec_block_raw(bytes, ix, b) == Some(raw));
    assert(spec_find_input(iv, p.name) matches Some(inp) && inp.data == raw.subrange(
        p.offset,
        p.offset + p.size,
    ));
    lemma_find_input_unique(iv, i);
    assert(spec_find_input(iv, iv[i].name) == Some(iv[i]));
    assert(block_contiguous(block) && block.len() > 0);
    assert(forall|m: int| 0 <= m < block.len() ==> 0 <= (#[trigger] block[m]).size);
    crate::pack::lemma_placement_in_range(block, k, block.len() as int);
    assert(block.take(block.len() as int) =~= block);
    assert(spec_content_of(bytes, ix, row) == Some(iv[i].data));
}


/// Inside the assembled archive, block `b`'s compressed byte range is
/// exactly the `b`-th compressed block.
proof fn lemma_comp_bytes_are_block(bytes: Seq<u8>, vv: Seq<Seq<u8>>, ix: IndexV, b: int)
    requires
        0 <= b < ix.blocks.len(),
        ix.blocks.len() == vv.len(),
        ix.blocks[b].offset == blocks_len_prefix(vv, b),
        ix.blocks[b].size == vv[b].len() as int,
        crate::layout::spec_blob_start(bytes) + blocks_concat(vv).len() == bytes.len(),
        bytes.subrange(crate::layout::spec_blob_start(bytes), bytes.len() as int) == blocks_concat(
            vv,
        ),
    ensures
        crate::layout::spec_block_comp_bytes(bytes, ix, b) == vv[b],
{
    let bs = crate::layout::spec_blob_start(bytes);
    let off = blocks_len_prefix(vv, b);
    crate::layout::lemma_blocks_concat_subrange(vv, b);
    crate::layout::lemma_blocks_prefix_le(vv, 0, b);
    assert(blocks_len_prefix(vv, 0) == 0);
    assert(bs >= 0) by {
        assert(bytes.subrange(bs, bytes.len() as int).len() >= 0);
    }
    assert(crate::layout::spec_block_comp_bytes(bytes, ix, b) =~= blocks_concat(vv).subrange(
        off,
        off + vv[b].len(),
    ));
}


fn metas_of_inputs(inputs: &Vec<InputFile>) -> (r: Vec<FileMeta>)
    ensures
        r@.len() == inputs@.len(),
        forall|i: int|
            0 <= i < inputs@.len() ==> #[trigger] metas_view(r@)[i] == (FileMetaV {
                name: inputs_view(inputs@)[i].name,
                size: inputs_view(inputs@)[i].data.len() as int,
            }),
{
    let mut metas: Vec<FileMeta> = Vec::new();
    let mut i: usize = 0;
    while i < inputs.len()
        invariant
            i <= inputs@.len(),
            metas@.len() == i,
            forall|j: int|
                0 <= j < i ==> #[trigger] metas_view(metas@)[j] == (FileMetaV {
                    name: inputs_view(inputs@)[j].name,
                    size: inputs_view(inputs@)[j].data.len() as int,
                }),
        decreases inputs@.len() - i,
    {
        let ghost pre = metas_view(metas@);
        metas.push(FileMeta { name: inputs[i].name.clone(), size: inputs[i].data.len() as u64 });
        proof {
            assert(metas_view(metas@) =~= pre.push(metas@[i as int]@));
            assert(inputs_view(inputs@)[i as int] == inputs@[i as int]@);
            assert forall|j: int| 0 <= j < i implies #[trigger] metas_view(metas@)[j] == (FileMetaV {
                name: inputs_view(inputs@)[j].name,
                size: inputs_view(inputs@)[j].data.len() as int,
            }) by {
                assert(metas_view(metas@)[j] == pre[j]);
            }
        }
        i += 1;
    }
    metas
}

/// Serializes the index rows the writer just built.
fn encode_rows(
    file_rows: &Vec<ArchiveFileEntry>,
    leaf_rows: &Vec<ArchiveFolderLeafEntry>,
    block_rows: &Vec<ArchiveBlockInfo>,
    comp: &Vec<Vec<u8>>,
    codec: Codec,
    nblocks: Ghost<int>,
) -> (r: Vec<u8>)
    requires
        forall|j: int|
            0 <= j < file_rows@.len() ==> crate::rows::valid_file_row(
                #[trigger] file_rows_view(file_rows@)[j],
                nblocks@,
            ),
        forall|b: int|
            0 <= b < comp@.len() ==> #[trigger] block_rows_view(block_rows@)[b]
                == (crate::rows::BlockRowV {
                id: b,
                size: vecs_view(comp@)[b].len() as int,
                offset: blocks_len_prefix(vecs_view(comp@), b),
                compression_type: spec_label_of_codec(codec),
            }),
        block_rows@.len() == comp@.len(),
    ensures
        crate::index::spec_parse_index(r@) == Some(
            IndexV {
                files: file_rows_view(file_rows@),
                leaves: leaf_rows_view(leaf_rows@),
                blocks: block_rows_view(block_rows@),
            },
        ),
{
    proof {
        assert forall|i: int| 0 <= i < file_rows@.len() implies crate::index::nonneg_file_row(
            #[trigger] file_rows@[i]@,
        ) by {
            assert(file_rows_view(file_rows@)[i] == file_rows@[i]@);
        }
        assert forall|i: int| 0 <= i < block_rows@.len() implies crate::index::nonneg_block_row(
            #[trigger] block_rows@[i]@,
        ) by {
            assert(block_rows_view(block_rows@)[i] == block_rows@[i]@);
            crate::layout::lemma_blocks_prefix_le(vecs_view(comp@), 0, i);
            assert(blocks_len_prefix(vecs_view(comp@), 0) == 0);
        }
    }
    encode_index(file_rows, leaf_rows, block_rows)
}

} // verus!
