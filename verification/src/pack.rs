//! The packer: sorts files ascending by size and distributes them into
//! blocks under a size budget, recording each file's offset inside its
//! block's uncompressed payload.

use vstd::prelude::*;
use vstd::seq_lib::{to_multiset_build, to_multiset_insert};
use vstd::string::StringExecFns;

verus! {

/// A file to be packed: its relative name and its byte size.
#[derive(Debug, Clone, PartialEq, Eq)]
pub struct FileMeta {
    pub name: String,
    pub size: u64,
}

/// Spec-level model of a file to be packed.
pub ghost struct FileMetaV {
    pub name: Seq<char>,
    pub size: int,
}

impl View for FileMeta {
    type V = FileMetaV;

    open spec fn view(&self) -> FileMetaV {
        FileMetaV { name: self.name@, size: self.size as int }
    }
}

/// One file's placement inside a block: its byte range starts at `offset`
/// within the block's uncompressed payload.
#[derive(Debug, Clone, PartialEq, Eq)]
pub struct Placement {
    pub name: String,
    pub offset: u64,
    pub size: u64,
}

/// Spec-level model of a placement.
pub ghost struct PlacementV {
    pub name: Seq<char>,
    pub offset: int,
    pub size: int,
}

impl View for Placement {
    type V = PlacementV;

    open spec fn view(&self) -> PlacementV {
        PlacementV { name: self.name@, offset: self.offset as int, size: self.size as int }
    }
}

/// The models of a sequence of file metas.
pub open spec fn metas_view(s: Seq<FileMeta>) -> Seq<FileMetaV> {
    s.map_values(|f: FileMeta| f@)
}

/// The models of a sequence of placements.
pub open spec fn placements_view(s: Seq<Placement>) -> Seq<PlacementV> {
    s.map_values(|p: Placement| p@)
}

/// Ascending by size.
pub open spec fn sorted_by_size(s: Seq<FileMetaV>) -> bool {
    forall|a: int, b: int| 0 <= a < b < s.len() ==> s[a].size <= s[b].size
}

/// Total byte size of a block's placements: the uncompressed payload length.
pub open spec fn placements_total(p: Seq<PlacementV>) -> int
    decreases p.len(),
{
    if p.len() == 0 {
        0
    } else {
        placements_total(p.drop_last()) + p.last().size
    }
}

/// Placements are laid out back to back from offset 0: each file starts
/// where the previous ones end.
pub open spec fn block_contiguous(p: Seq<PlacementV>) -> bool {
    forall|k: int| 0 <= k < p.len() ==> (#[trigger] p[k]).offset == placements_total(p.take(k))
}

/// The file each placement stands for.
pub open spec fn meta_of_placement(p: PlacementV) -> FileMetaV {
    FileMetaV { name: p.name, size: p.size }
}

/// The files a block's placements stand for, in placement order.
pub open spec fn metas_of_placements(p: Seq<PlacementV>) -> Seq<FileMetaV> {
    p.map_values(|x: PlacementV| meta_of_placement(x))
}

/// All files of a plan, in block order then placement order.
pub open spec fn plan_metas(plan: Seq<Seq<PlacementV>>) -> Seq<FileMetaV>
    decreases plan.len(),
{
    if plan.len() == 0 {
        Seq::empty()
    } else {
        plan_metas(plan.drop_last()) + metas_of_placements(plan.last())
    }
}

/// The model of a whole plan.
pub open spec fn plan_view(plan: Seq<Vec<Placement>>) -> Seq<Seq<PlacementV>> {
    plan.map_values(|b: Vec<Placement>| placements_view(b@))
}

/// Every placement's sizes are non-negative (they come from `u64` fields).
pub open spec fn plan_sizes_nonneg(plan: Seq<Seq<PlacementV>>) -> bool {
    forall|b: int, k: int|
        0 <= b < plan.len() && 0 <= k < plan[b].len() ==> {
            &&& 0 <= (#[trigger] plan[b][k]).size
            &&& 0 <= plan[b][k].offset
        }
}

/// A well-formed placement plan for a budget: no empty block, contiguous
/// placements, multi-file blocks within the budget, and a file larger than
/// the budget alone in its block.
pub open spec fn valid_plan(plan: Seq<Seq<PlacementV>>, budget: int) -> bool {
    &&& forall|b: int| 0 <= b < plan.len() ==> (#[trigger] plan[b]).len() > 0
    &&& forall|b: int| 0 <= b < plan.len() ==> block_contiguous(#[trigger] plan[b])
    &&& plan_sizes_nonneg(plan)
    &&& forall|b: int|
        0 <= b < plan.len() && (#[trigger] plan[b]).len() >= 2 ==> placements_total(plan[b])
            <= budget
    &&& forall|b: int, k: int|
        0 <= b < plan.len() && 0 <= k < plan[b].len() && (#[trigger] plan[b][k]).size > budget
            ==> plan[b].len() == 1
}

/// Total byte size of a list of files.
pub open spec fn metas_total(s: Seq<FileMetaV>) -> int
    decreases s.len(),
{
    if s.len() == 0 {
        0
    } else {
        metas_total(s.drop_last()) + s.last().size
    }
}

/// Inserting one file adds its size to the total.
pub proof fn lemma_metas_total_insert(s: Seq<FileMetaV>, j: int, m: FileMetaV)
    requires
        0 <= j <= s.len(),
    ensures
        metas_total(s.insert(j, m)) == metas_total(s) + m.size,
    decreases s.len(),
{
    if j == s.len() {
        assert(s.insert(j, m) =~= s.push(m));
        assert(s.push(m).drop_last() =~= s);
        assert(s.push(m).last() == m);
    } else {
        assert(s.insert(j, m).drop_last() =~= s.drop_last().insert(j, m));
        assert(s.insert(j, m).last() == s.last());
        lemma_metas_total_insert(s.drop_last(), j, m);
    }
}

/// Pairwise-distinct file names among metas.
pub open spec fn distinct_meta_names(s: Seq<FileMetaV>) -> bool {
    forall|a: int, b: int|
        0 <= a < b < s.len() ==> (#[trigger] s[a]).name != (#[trigger] s[b]).name
}

/// A plan without empty blocks lists at least one file per block.
pub proof fn lemma_plan_nonempty(plan: Seq<Seq<PlacementV>>)
    requires
        plan.len() > 0,
        plan.last().len() > 0,
    ensures
        plan_metas(plan).len() > 0,
{
    assert(plan_metas(plan) == plan_metas(plan.drop_last()) + metas_of_placements(plan.last()));
}

/// Appending one block extends a plan's files by that block's files.
pub proof fn lemma_plan_metas_push(plan: Seq<Seq<PlacementV>>, blk: Seq<PlacementV>)
    ensures
        plan_metas(plan.push(blk)) == plan_metas(plan) + metas_of_placements(blk),
{
    assert(plan.push(blk).drop_last() =~= plan);
    assert(plan.push(blk).last() == blk);
}

/// Inserting at the first position whose element is larger keeps the
/// sequence sorted.
proof fn lemma_insert_sorted(pre: Seq<FileMetaV>, j: int, m: FileMetaV)
    requires
        sorted_by_size(pre),
        0 <= j <= pre.len(),
        forall|k: int| 0 <= k < j ==> (#[trigger] pre[k]).size <= m.size,
        j < pre.len() ==> !(pre[j].size <= m.size),
    ensures
        sorted_by_size(pre.insert(j, m)),
{
    let s = pre.insert(j, m);
    assert forall|a: int, b: int| 0 <= a < b < s.len() implies s[a].size <= s[b].size by {
        if a == j {
            if b > j {
                assert(s[b] == pre[b - 1]);
                assert(b - 1 >= j);
                if b - 1 == j {
                    assert(pre[j].size > m.size);
                } else {
                    assert(pre[j].size <= pre[b - 1].size);
                }
            }
        } else if b == j {
            assert(s[a] == pre[a]);
        } else {
            if a < j {
                assert(s[a] == pre[a]);
            } else {
                assert(s[a] == pre[a - 1]);
            }
            if b < j {
                assert(s[b] == pre[b]);
            } else {
                assert(s[b] == pre[b - 1]);
            }
        }
    }
}

/// Sorts files ascending by size (insertion sort), keeping exactly the same
/// multiset of files.
#[verifier::rlimit(60)]
pub fn sort_by_size(files: &Vec<FileMeta>) -> (r: Vec<FileMeta>)
    ensures
        sorted_by_size(metas_view(r@)),
        metas_view(r@).to_multiset() == metas_view(files@).to_multiset(),
        r@.len() == files@.len(),
        distinct_meta_names(metas_view(files@)) ==> distinct_meta_names(metas_view(r@)),
        metas_total(metas_view(r@)) == metas_total(metas_view(files@)),
{
    broadcast use to_multiset_build, to_multiset_insert, vstd::seq_lib::to_multiset_contains;

    let mut out: Vec<FileMeta> = Vec::new();
    proof {
        assert(metas_view(out@) =~= Seq::<FileMetaV>::empty());
        assert(metas_view(files@.take(0)) =~= Seq::<FileMetaV>::empty());
    }
    let mut i: usize = 0;
    while i < files.len()
        invariant
            i <= files@.len(),
            out@.len() == i,
            sorted_by_size(metas_view(out@)),
            metas_view(out@).to_multiset() == metas_view(files@.take(i as int)).to_multiset(),
            distinct_meta_names(metas_view(files@)) ==> distinct_meta_names(metas_view(out@)),
            metas_total(metas_view(out@)) == metas_total(metas_view(files@.take(i as int))),
        decreases files@.len() - i,
    {
        let f = &files[i];
        let m = FileMeta { name: f.name.clone(), size: f.size };
        let ghost pre = out@;
        let mut j: usize = 0;
        while j < out.len() && out[j].size <= m.size
            invariant
                j <= out@.len(),
                out@ == pre,
                forall|k: int| 0 <= k < j ==> metas_view(out@)[k].size <= m@.size,
            decreases out@.len() - j,
        {
            proof {
                assert(metas_view(out@)[j as int] == out@[j as int]@);
            }
            j += 1;
        }
        out.insert(j, m);
        proof {
            assert(metas_view(out@) =~= metas_view(pre).insert(j as int, m@));
            assert(metas_view(files@.take(i + 1)) =~= metas_view(files@.take(i as int)).push(
                files@[i as int]@,
            ));
            assert(m@ == files@[i as int]@);
            to_multiset_insert(metas_view(pre), j as int, m@);
            to_multiset_build(metas_view(files@.take(i as int)), files@[i as int]@);
            assert(metas_view(out@).to_multiset() == metas_view(files@.take(i + 1)).to_multiset());
            assert(j < pre.len() ==> metas_view(pre)[j as int].size > m@.size) by {
                if (j as int) < pre.len() {
                    assert(metas_view(pre)[j as int] == pre[j as int]@);
                }
            }
            lemma_insert_sorted(metas_view(pre), j as int, m@);
            assert(sorted_by_size(metas_view(out@)));
            lemma_metas_total_insert(metas_view(pre), j as int, m@);
            lemma_metas_total_insert(
                metas_view(files@.take(i as int)),
                metas_view(files@.take(i as int)).len() as int,
                files@[i as int]@,
            );
            assert(metas_view(files@.take(i as int)).insert(
                metas_view(files@.take(i as int)).len() as int,
                files@[i as int]@,
            ) =~= metas_view(files@.take(i + 1)));
            assert(metas_total(metas_view(out@)) == metas_total(metas_view(files@.take(i + 1))));
            if distinct_meta_names(metas_view(files@)) {
                assert forall|k: int| 0 <= k < pre.len() implies (#[trigger] metas_view(
                    pre,
                )[k]).name != m@.name by {
                    let x = metas_view(pre)[k];
                    assert(metas_view(pre).contains(x));
                    vstd::seq_lib::to_multiset_contains(metas_view(pre), x);
                    vstd::seq_lib::to_multiset_contains(metas_view(files@.take(i as int)), x);
                    assert(metas_view(files@.take(i as int)).contains(x));
                    let a = choose|a: int|
                        0 <= a < metas_view(files@.take(i as int)).len() && #[trigger] metas_view(
                            files@.take(i as int),
                        )[a] == x;
                    assert(metas_view(files@.take(i as int))[a] == files@.take(i as int)[a]@);
                    assert(files@.take(i as int)[a] == files@[a]);
                    assert(metas_view(files@)[a] == x);
                    assert(metas_view(files@)[a].name != metas_view(files@)[i as int].name);
                    assert(m@ == metas_view(files@)[i as int]);
                }
                assert forall|a: int, b: int|
                    0 <= a < b < metas_view(out@).len() implies (#[trigger] metas_view(
                    out@,
                )[a]).name != (#[trigger] metas_view(out@)[b]).name by {
                    let s = metas_view(out@);
                    let sp = metas_view(pre);
                    if a == j {
                        if b > j {
                            assert(s[b] == sp[b - 1]);
                        }
                    } else if b == j {
                        if a < j {
                            assert(s[a] == sp[a]);
                        }
                    } else {
                        if a < j {
                            assert(s[a] == sp[a]);
                        } else {
                            assert(s[a] == sp[a - 1]);
                        }
                        if b < j {
                            assert(s[b] == sp[b]);
                        } else {
                            assert(s[b] == sp[b - 1]);
                        }
                    }
                }
            }
        }
        i += 1;
    }
    proof {
        assert(files@.take(files@.len() as int) =~= files@);
    }
    out
}


/// Distributes files into blocks in the given order: a file is appended to
/// the current block unless that would exceed the budget, in which case the
/// block is closed and a new one opened.  The plan lists exactly the given
/// files, in the given order.
pub fn plan_in_order(files: &Vec<FileMeta>, budget: u64) -> (r: Vec<Vec<Placement>>)
    ensures
        valid_plan(plan_view(r@), budget as int),
        plan_metas(plan_view(r@)) == metas_view(files@),
        metas_total(metas_view(files@)) <= budget as int ==> r@.len() <= 1,
{
    let mut blocks: Vec<Vec<Placement>> = Vec::new();
    let mut curr: Vec<Placement> = Vec::new();
    let mut curr_off: u64 = 0;
    proof {
        assert(placements_view(curr@) =~= Seq::<PlacementV>::empty());
        assert(plan_view(blocks@) =~= Seq::<Seq<PlacementV>>::empty());
        assert(plan_metas(plan_view(blocks@)) + metas_of_placements(placements_view(curr@))
            =~= metas_view(files@.take(0)));
    }
    let mut i: usize = 0;
    while i < files.len()
        invariant
            i <= files@.len(),
            curr_off == placements_total(placements_view(curr@)),
            block_contiguous(placements_view(curr@)),
            curr@.len() >= 2 ==> curr_off <= budget,
            forall|k: int|
                0 <= k < curr@.len() && (#[trigger] placements_view(curr@)[k]).size
                    > budget ==> curr@.len() == 1,
            valid_plan(plan_view(blocks@), budget as int),
            plan_metas(plan_view(blocks@)) + metas_of_placements(placements_view(curr@))
                == metas_view(files@.take(i as int)),
            metas_total(metas_view(files@).take(i as int)) <= budget as int ==> (blocks@.len() == 0
                && curr_off as int == metas_total(metas_view(files@).take(i as int))),
        decreases files@.len() - i,
    {
        let f = &files[i];
        if curr.len() > 0 && (curr_off > budget || f.size > budget - curr_off) {
            let ghost closed = placements_view(curr@);
            let ghost pre_plan = plan_view(blocks@);
            blocks.push(curr);
            curr = Vec::new();
            curr_off = 0;
            proof {
                assert(plan_view(blocks@) =~= pre_plan.push(closed));
                lemma_plan_metas_push(pre_plan, closed);
                assert(placements_view(curr@) =~= Seq::<PlacementV>::empty());
                assert(plan_metas(plan_view(blocks@)) + metas_of_placements(
                    placements_view(curr@),
                ) =~= metas_view(files@.take(i as int)));
            }
        }
        let ghost pre_curr = placements_view(curr@);
        let was_empty: bool = curr.len() == 0;
        let p = Placement { name: f.name.clone(), offset: curr_off, size: f.size };
        let ghost pv = p@;
        curr.push(p);
        proof {
            assert(placements_view(curr@) =~= pre_curr.push(pv));
            assert(placements_view(curr@).drop_last() =~= pre_curr);
            assert(placements_view(curr@).last() == pv);
            assert(placements_view(curr@).len() > 0);
            assert(placements_total(placements_view(curr@)) == placements_total(
                placements_view(curr@).drop_last(),
            ) + placements_view(curr@).last().size);
            assert(placements_total(pre_curr) == curr_off);
            assert(pv.size == f.size as int);
            assert(placements_total(placements_view(curr@)) == curr_off + f.size as int);
            assert forall|k: int| 0 <= k < placements_view(curr@).len() implies (
            #[trigger] placements_view(curr@)[k]).offset == placements_total(
                placements_view(curr@).take(k),
            ) by {
                if k < pre_curr.len() {
                    assert(placements_view(curr@).take(k) =~= pre_curr.take(k));
                    assert(placements_view(curr@)[k] == pre_curr[k]);
                } else {
                    assert(placements_view(curr@).take(k) =~= pre_curr);
                }
            }
            assert(metas_of_placements(placements_view(curr@)) =~= metas_of_placements(
                pre_curr,
            ).push(meta_of_placement(pv)));
            assert(meta_of_placement(pv) == files@[i as int]@);
            assert(metas_view(files@.take(i + 1)) =~= metas_view(files@.take(i as int)).push(
                files@[i as int]@,
            ));
            assert(plan_metas(plan_view(blocks@)) + metas_of_placements(placements_view(curr@))
                =~= metas_view(files@.take(i + 1)));
        }
        proof {
            let mv = metas_view(files@);
            assert(mv.take(i + 1).drop_last() =~= mv.take(i as int));
            assert(mv.take(i + 1).last() == mv[i as int]);
            assert(mv[i as int] == files@[i as int]@);
            assert(metas_total(mv.take(i + 1)) == metas_total(mv.take(i as int)) + f.size as int);
        }
        curr_off = curr_off + f.size;
        i += 1;
    }
    if curr.len() > 0 {
        let ghost closed = placements_view(curr@);
        let ghost pre_plan = plan_view(blocks@);
        blocks.push(curr);
        proof {
            assert(plan_view(blocks@) =~= pre_plan.push(closed));
            lemma_plan_metas_push(pre_plan, closed);
            assert(files@.take(files@.len() as int) =~= files@);
            assert(plan_metas(plan_view(blocks@)) =~= metas_view(files@));
            assert(metas_view(files@).take(files@.len() as int) =~= metas_view(files@));
            if metas_total(metas_view(files@)) <= budget as int {
                assert(pre_plan.len() == 0);
                assert(blocks@.len() <= 1);
            }
        }
    } else {
        proof {
            assert(files@.take(files@.len() as int) =~= files@);
            assert(metas_of_placements(placements_view(curr@)) =~= Seq::<FileMetaV>::empty());
            assert(plan_metas(plan_view(blocks@)) =~= metas_view(files@));
            assert(metas_view(files@).take(files@.len() as int) =~= metas_view(files@));
        }
    }
    blocks
}

/// The packer: sorts the files ascending by size, then distributes them into
/// blocks under the budget.  The plan holds exactly the given files (as a
/// multiset), laid out contiguously; a multi-file block's payload fits the
/// budget, and a file larger than the budget is the sole occupant of its
/// block.
pub fn distribute_files_to_blocks(files: &Vec<FileMeta>, budget: u64) -> (r: Vec<Vec<Placement>>)
    ensures
        valid_plan(plan_view(r@), budget as int),
        plan_metas(plan_view(r@)).to_multiset() == metas_view(files@).to_multiset(),
        sorted_by_size(plan_metas(plan_view(r@))),
        metas_total(metas_view(files@)) <= budget as int ==> r@.len() <= 1,
{
    let sorted = sort_by_size(files);
    plan_in_order(&sorted, budget)
}

/// In a contiguous block, each placement's range lies inside the payload of
/// any prefix that includes it.
pub proof fn lemma_placement_in_range(p: Seq<PlacementV>, j: int, k: int)
    requires
        block_contiguous(p),
        forall|m: int| 0 <= m < p.len() ==> 0 <= (#[trigger] p[m]).size,
        0 <= j < k <= p.len(),
    ensures
        0 <= p[j].offset,
        p[j].offset + p[j].size <= placements_total(p.take(k)),
    decreases k - j,
{
    lemma_total_nonneg(p.take(j));
    assert(p.take(k).take(j) =~= p.take(j));
    assert(forall|m: int| 0 <= m < p.take(k).len() ==> 0 <= (#[trigger] p.take(k)[m]).size);
    lemma_prefix_total_le(p.take(k), j + 1);
    assert(p.take(k).take(j + 1) =~= p.take(j + 1));
    assert(p.take(j + 1).drop_last() =~= p.take(j));
    assert(p.take(j + 1).last() == p[j]);
}

/// A payload total is non-negative when sizes are.
pub proof fn lemma_total_nonneg(p: Seq<PlacementV>)
    requires
        forall|m: int| 0 <= m < p.len() ==> 0 <= (#[trigger] p[m]).size,
    ensures
        placements_total(p) >= 0,
    decreases p.len(),
{
    if p.len() > 0 {
        assert(forall|m: int|
            0 <= m < p.drop_last().len() ==> 0 <= (#[trigger] p.drop_last()[m]).size);
        lemma_total_nonneg(p.drop_last());
    }
}

/// A prefix's total is at most the whole total when sizes are non-negative.
pub proof fn lemma_prefix_total_le(p: Seq<PlacementV>, n: int)
    requires
        forall|m: int| 0 <= m < p.len() ==> 0 <= (#[trigger] p[m]).size,
        0 <= n <= p.len(),
    ensures
        placements_total(p.take(n)) <= placements_total(p),
    decreases p.len() - n,
{
    if n == p.len() {
        assert(p.take(n) =~= p);
    } else {
        lemma_prefix_total_le(p, n + 1);
        assert(p.take(n + 1).drop_last() =~= p.take(n));
        assert(p.take(n + 1).last() == p[n]);
    }
}


/// The packing invariant: in any valid plan, every placement's byte range
/// lies inside its block's uncompressed payload.
pub proof fn lemma_packing_invariant(plan: Seq<Seq<PlacementV>>, budget: int, b: int, k: int)
    requires
        valid_plan(plan, budget),
        0 <= b < plan.len(),
        0 <= k < plan[b].len(),
    ensures
        0 <= plan[b][k].offset,
        plan[b][k].offset + plan[b][k].size <= placements_total(plan[b]),
{
    lemma_placement_in_range(plan[b], k, plan[b].len() as int);
    assert(plan[b].take(plan[b].len() as int) =~= plan[b]);
}


/// Each placement's file appears among the plan's files.
pub proof fn lemma_plan_metas_contains(plan: Seq<Seq<PlacementV>>, b: int, k: int)
    requires
        0 <= b < plan.len(),
        0 <= k < plan[b].len(),
    ensures
        plan_metas(plan).contains(meta_of_placement(plan[b][k])),
    decreases plan.len(),
{
    let m = meta_of_placement(plan[b][k]);
    if b == plan.len() - 1 {
        assert(plan_metas(plan) == plan_metas(plan.drop_last()) + metas_of_placements(plan.last()));
        assert(metas_of_placements(plan.last())[k] == m);
        let j = plan_metas(plan.drop_last()).len() + k;
        assert(plan_metas(plan)[j] == m);
    } else {
        assert(plan.drop_last()[b] == plan[b]);
        lemma_plan_metas_contains(plan.drop_last(), b, k);
        let j = choose|j: int|
            0 <= j < plan_metas(plan.drop_last()).len() && #[trigger] plan_metas(plan.drop_last())[j] == m;
        assert(plan_metas(plan) == plan_metas(plan.drop_last()) + metas_of_placements(plan.last()));
        assert(plan_metas(plan)[j] == m);
    }
}


/// A plan without empty blocks has no more blocks than files.
pub proof fn lemma_plan_len_le(plan: Seq<Seq<PlacementV>>)
    requires
        forall|b: int| 0 <= b < plan.len() ==> (#[trigger] plan[b]).len() > 0,
    ensures
        plan.len() <= plan_metas(plan).len(),
    decreases plan.len(),
{
    if plan.len() > 0 {
        assert forall|b: int| 0 <= b < plan.drop_last().len() implies (
        #[trigger] plan.drop_last()[b]).len() > 0 by {
            assert(plan.drop_last()[b] == plan[b]);
        }
        lemma_plan_len_le(plan.drop_last());
        assert(plan_metas(plan) == plan_metas(plan.drop_last()) + metas_of_placements(plan.last()));
        assert(plan.last().len() > 0);
    }
}

} // verus!
