//! How duplicates are shown: one folder per group, the most wasteful first.

use vstd::prelude::*;
use vstd::string::*;

use crate::dedup::{duplicates_view, DuplicateGroup, DuplicateView};
use crate::file_groups::{
    group_folder, ordered_group, pick, picked, try_group_folder, try_ordered_group,
};
use crate::format::{human_size, size_text};
use crate::grouping::{index_list, positions};
use crate::model::{forest_view, totals_fit, Node, NodeView};
use crate::sorting::{is_order, merge_sort, stable_sort};
use crate::text::{decimal, owned, push_decimal};

verus! {

/// What could be saved by keeping one file of a group.
pub open spec fn wasted(d: DuplicateView) -> int {
    d.size * (d.file_indices.len() - 1)
}

/// What could be saved in all.
pub open spec fn wasted_total(gs: Seq<DuplicateView>) -> int
    decreases gs.len(),
{
    if gs.len() == 0 {
        0
    } else {
        wasted_total(gs.drop_last()) + wasted(gs.last())
    }
}

/// Every group has a file, all files are in the list, and what each group wastes fits.
pub open spec fn showable(gs: Seq<DuplicateView>, files: nat) -> bool {
    forall|g: int|
        0 <= g < gs.len() ==> (#[trigger] gs[g]).file_indices.len() > 0 && forall|i: int|
            0 <= i < gs[g].file_indices.len() ==> #[trigger] gs[g].file_indices[i] < files
}

/// What the folder of a group is called.
pub open spec fn duplicate_title(d: DuplicateView) -> Seq<char> {
    size_text(d.size as nat) + " × "@ + decimal(d.file_indices.len())
        + " 个文件（逐字节确认一致，可省 "@ + size_text(wasted(d) as nat) + "）"@
}

/// The folder of a group.
pub open spec fn duplicate_folder(files: Seq<NodeView>, d: DuplicateView) -> NodeView {
    group_folder(duplicate_title(d), picked(files, d.file_indices))
}

/// The groups by what they waste, the most first.
pub open spec fn waste_order(gs: Seq<DuplicateView>) -> Seq<usize> {
    stable_sort(
        positions(gs.len()),
        |a: usize, b: usize| wasted(gs[a as int]) > wasted(gs[b as int]),
    )
}

/// The folders of all groups, the most wasteful first.
pub open spec fn duplicate_folders(files: Seq<NodeView>, gs: Seq<DuplicateView>) -> Seq<NodeView> {
    Seq::new(gs.len(), |k: int| duplicate_folder(files, gs[waste_order(gs)[k] as int]))
}

/// Duplicates as a tree: the groups by what they waste, the most first.
pub open spec fn duplicate_tree(files: Seq<NodeView>, gs: Seq<DuplicateView>) -> NodeView {
    ordered_group(
        "重复文件（逐字节确认，可放心用于符号链接/去重）"@,
        duplicate_folders(files, gs),
    )
}

/// What the groups waste and their totals fit their fields.
pub open spec fn duplicates_fit(files: Seq<NodeView>, gs: Seq<DuplicateView>) -> bool {
    &&& forall|g: int|
        0 <= g < gs.len() ==> wasted(#[trigger] gs[g]) <= u64::MAX && totals_fit(
            picked(files, gs[g].file_indices),
        )
    &&& totals_fit(duplicate_folders(files, gs))
}

/// What could be saved by keeping one file of a group, if it fits.
pub fn wasted_bytes(g: &DuplicateGroup) -> (r: Option<u64>)
    requires
        g.file_indices@.len() > 0,
    ensures
        r == if wasted(g@) <= u64::MAX {
            Some(wasted(g@) as u64)
        } else {
            None::<u64>
        },
{
    let n: u64 = (g.file_indices.len() - 1) as u64;
    proof {
        assert(g.size * n >= 0) by (nonlinear_arith);
    }
    g.size.checked_mul(n)
}

/// What could be saved in all, if it fits.
pub fn wasted_in_all(gs: &Vec<DuplicateGroup>) -> (r: Option<u64>)
    requires
        forall|g: int| 0 <= g < gs@.len() ==> (#[trigger] gs@[g]).file_indices@.len() > 0,
    ensures
        r == if wasted_total(duplicates_view(gs@)) <= u64::MAX {
            Some(wasted_total(duplicates_view(gs@)) as u64)
        } else {
            None::<u64>
        },
{
    let ghost gv = duplicates_view(gs@);
    let mut sum: u64 = 0;
    let mut i: usize = 0;
    while i < gs.len()
        invariant
            i <= gs.len(),
            gv == duplicates_view(gs@),
            forall|g: int| 0 <= g < gs@.len() ==> (#[trigger] gs@[g]).file_indices@.len() > 0,
            sum == wasted_total(gv.take(i as int)),
        decreases gs.len() - i,
    {
        proof {
            assert(gv.take(i + 1).drop_last() =~= gv.take(i as int));
            assert(gv.take(i + 1).last() == gs@[i as int]@);
            lemma_waste_grows(gv, i + 1);
            assert(wasted(gv[i as int]) >= 0) by (nonlinear_arith)
                requires
                    wasted(gv[i as int]) == gv[i as int].size * (gv[i as int].file_indices.len() - 1),
                    gv[i as int].file_indices.len() > 0,
            ;
        }
        let w: u64 = match wasted_bytes(&gs[i]) {
            Some(w) => w,
            None => return None,
        };
        if w > u64::MAX - sum {
            return None;
        }
        sum = sum + w;
        i += 1;
    }
    assert(gv.take(i as int) =~= gv);
    Some(sum)
}

proof fn lemma_waste_grows(gs: Seq<DuplicateView>, k: int)
    requires
        0 <= k <= gs.len(),
        forall|g: int| 0 <= g < gs.len() ==> (#[trigger] gs[g]).file_indices.len() > 0,
    ensures
        wasted_total(gs.take(k)) <= wasted_total(gs),
    decreases gs.len() - k,
{
    if k < gs.len() {
        lemma_waste_grows(gs, k + 1);
        assert(gs.take(k + 1).drop_last() =~= gs.take(k));
        assert(gs.take(k + 1).last() == gs[k]);
        assert(wasted(gs[k]) >= 0) by (nonlinear_arith)
            requires
                wasted(gs[k]) == gs[k].size * (gs[k].file_indices.len() - 1),
                gs[k].file_indices.len() > 0,
        ;
    } else {
        assert(gs.take(k) =~= gs);
    }
}

fn title_of(g: &DuplicateGroup, waste: u64) -> (r: String)
    requires
        waste == wasted(g@),
    ensures
        r@ == duplicate_title(g@),
{
    let mut s = human_size(g.size);
    s.append(" × ");
    push_decimal(&mut s, g.file_indices.len() as u64);
    s.append(" 个文件（逐字节确认一致，可省 ");
    s.append(human_size(waste).as_str());
    s.append("）");
    assert(s@ =~= duplicate_title(g@));
    s
}

fn waste_list(gs: &Vec<DuplicateGroup>) -> (r: Option<Vec<u64>>)
    requires
        forall|g: int| 0 <= g < gs@.len() ==> (#[trigger] gs@[g]).file_indices@.len() > 0,
    ensures
        match r {
            Some(w) => w@.len() == gs@.len() && forall|g: int|
                0 <= g < gs@.len() ==> #[trigger] w@[g] == wasted(gs@[g]@),
            None => exists|g: int| 0 <= g < gs@.len() && wasted(#[trigger] gs@[g]@) > u64::MAX,
        },
{
    let mut w: Vec<u64> = Vec::new();
    let mut i: usize = 0;
    while i < gs.len()
        invariant
            i <= gs.len(),
            forall|g: int| 0 <= g < gs@.len() ==> (#[trigger] gs@[g]).file_indices@.len() > 0,
            w@.len() == i,
            forall|g: int| 0 <= g < i ==> #[trigger] w@[g] == wasted(gs@[g]@),
        decreases gs.len() - i,
    {
        match wasted_bytes(&gs[i]) {
            Some(x) => w.push(x),
            None => {
                assert(wasted(gs@[i as int]@) > u64::MAX);
                return None;
            },
        }
        i += 1;
    }
    Some(w)
}

fn order_by_waste(gs: &Vec<DuplicateGroup>, w: &Vec<u64>) -> (r: Vec<usize>)
    requires
        w@.len() == gs@.len(),
        forall|g: int| 0 <= g < gs@.len() ==> #[trigger] w@[g] == wasted(gs@[g]@),
    ensures
        r@ == waste_order(duplicates_view(gs@)),
        forall|i: int| 0 <= i < r@.len() ==> #[trigger] r@[i] < gs@.len(),
        r@.len() == gs@.len(),
{
    let less = |a: &usize, b: &usize| -> (o: bool)
        requires
            *a < gs@.len() && *b < gs@.len(),
        ensures
            o == (wasted(duplicates_view(gs@)[*a as int]) > wasted(
                duplicates_view(gs@)[*b as int],
            )),
        { w[*a] > w[*b] };
    let ghost gv = duplicates_view(gs@);
    let ghost lt = |a: usize, b: usize| wasted(gv[a as int]) > wasted(gv[b as int]);
    let ghost ok = |i: usize| i < gs@.len();
    assert(is_order(lt));
    proof {
        crate::sorting::law_sort_permutes(positions(gs@.len()), lt);
    }
    merge_sort(index_list(gs.len()), &less, Ghost(lt), Ghost(ok))
}

/// Shows groups of duplicates as a tree; nothing where a number does not fit its field.
pub fn show_duplicates(files: &Vec<Node>, gs: &Vec<DuplicateGroup>) -> (r: Option<Node>)
    requires
        showable(duplicates_view(gs@), files@.len()),
    ensures
        match r {
            Some(n) => duplicates_fit(forest_view(files@), duplicates_view(gs@)) && n@
                == duplicate_tree(forest_view(files@), duplicates_view(gs@)),
            None => !duplicates_fit(forest_view(files@), duplicates_view(gs@)),
        },
{
    let ghost fv = forest_view(files@);
    let ghost gv = duplicates_view(gs@);
    proof {
        assert forall|g: int| 0 <= g < gs@.len() implies (#[trigger] gs@[g]).file_indices@.len()
            > 0 by {
            assert(gv[g] == gs@[g]@);
        }
    }
    let w = match waste_list(gs) {
        Some(w) => w,
        None => {
            proof {
                let g = choose|g: int|
                    0 <= g < gs@.len() && wasted(#[trigger] gs@[g]@) > u64::MAX;
                assert(gv[g] == gs@[g]@);
            }
            return None;
        },
    };
    let order = order_by_waste(gs, &w);
    let mut folders: Vec<Node> = Vec::new();
    let mut k: usize = 0;
    while k < order.len()
        invariant
            k <= order.len(),
            order@.len() == gs@.len(),
            fv == forest_view(files@),
            gv == duplicates_view(gs@),
            order@ == waste_order(gv),
            showable(gv, files@.len()),
            w@.len() == gs@.len(),
            forall|g: int| 0 <= g < gs@.len() ==> #[trigger] w@[g] == wasted(gs@[g]@),
            forall|i: int| 0 <= i < order@.len() ==> #[trigger] order@[i] < gs@.len(),
            folders@.len() == k,
            forall|j: int|
                0 <= j < k ==> (#[trigger] folders@[j])@ == duplicate_folder(
                    fv,
                    gv[order@[j] as int],
                ) && totals_fit(picked(fv, gv[order@[j] as int].file_indices)),
        decreases order.len() - k,
    {
        let g: usize = order[k];
        assert(gv[g as int] == gs@[g as int]@);
        assert forall|i: int| 0 <= i < gs@[g as int].file_indices@.len() implies
            #[trigger] gs@[g as int].file_indices@[i] < files@.len() by {
            assert(gv[g as int].file_indices[i] < files@.len());
        }
        let title = title_of(&gs[g], w[g]);
        match try_group_folder(title, pick(files, &gs[g].file_indices)) {
            Some(n) => folders.push(n),
            None => return None,
        }
        k += 1;
    }
    proof {
        assert(forest_view(folders@) =~= duplicate_folders(fv, gv));
        assert forall|g: int| 0 <= g < gv.len() implies wasted(#[trigger] gv[g]) <= u64::MAX
            && totals_fit(picked(fv, gv[g].file_indices)) by {
            assert(gv[g] == gs@[g]@);
            assert(w@[g] == wasted(gs@[g]@));
            lemma_order_is_complete(gv, g);
            let j = choose|j: int| 0 <= j < waste_order(gv).len() && waste_order(gv)[j] == g;
            assert(folders@[j]@ == duplicate_folder(fv, gv[order@[j] as int]));
        }
    }
    try_ordered_group(owned("重复文件（逐字节确认，可放心用于符号链接/去重）"), folders)
}

/// Every group has its place in the order.
proof fn lemma_order_is_complete(gs: Seq<DuplicateView>, g: int)
    requires
        0 <= g < gs.len() <= usize::MAX,
    ensures
        exists|j: int| 0 <= j < waste_order(gs).len() && #[trigger] waste_order(gs)[j] == g,
{
    broadcast use vstd::seq_lib::group_to_multiset_ensures;

    let lt = |a: usize, b: usize| wasted(gs[a as int]) > wasted(gs[b as int]);
    let p = positions(gs.len());
    crate::sorting::law_sort_permutes(p, lt);
    assert(p[g] == g as usize);
    assert(p.contains(g as usize));
    assert(p.to_multiset().contains(g as usize));
    assert(waste_order(gs).to_multiset().contains(g as usize));
    assert(waste_order(gs).contains(g as usize));
}

/// The groups are shown by what could be saved, the most first, and every group is shown.
pub proof fn law_most_wasteful_first(
    files: Seq<NodeView>,
    gs: Seq<DuplicateView>,
    i: int,
    j: int,
)
    requires
        0 <= i <= j < gs.len() <= usize::MAX,
    ensures
        duplicate_tree(files, gs).children == duplicate_folders(files, gs),
        waste_order(gs).len() == gs.len(),
        wasted(gs[waste_order(gs)[i] as int]) >= wasted(gs[waste_order(gs)[j] as int]),
        exists|k: int| 0 <= k < waste_order(gs).len() && #[trigger] waste_order(gs)[k] == i,
{
    broadcast use vstd::seq_lib::group_to_multiset_ensures;

    let lt = |a: usize, b: usize| wasted(gs[a as int]) > wasted(gs[b as int]);
    let p = positions(gs.len());
    let o = waste_order(gs);
    crate::sorting::law_sort_permutes(p, lt);
    crate::sorting::law_sort_sorts(p, lt);
    assert(o.to_multiset().len() == o.len());
    assert(p.to_multiset().len() == p.len());
    assert(is_order(lt));
    assert(!lt(o[j], o[i]));
    lemma_order_is_complete(gs, i);
}

/// The log line at the end of a search.
pub open spec fn summary_line(
    candidates: nat,
    groups: nat,
    saved: nat,
    seconds: Seq<char>,
) -> Seq<char> {
    "[dedup] 完成: 候选 "@ + decimal(candidates) + " 个文件 → 确认 "@ + decimal(groups)
        + " 组疑似重复，预计可省 "@ + size_text(saved) + "，耗时 "@ + seconds + "s"@
}

/// The log line at the end of a search.
pub fn summary(candidates: usize, groups: usize, saved: u64, seconds: &str) -> (r: String)
    ensures
        r@ == summary_line(candidates as nat, groups as nat, saved as nat, seconds@),
{
    let mut s = owned("[dedup] 完成: 候选 ");
    push_decimal(&mut s, candidates as u64);
    s.append(" 个文件 → 确认 ");
    push_decimal(&mut s, groups as u64);
    s.append(" 组疑似重复，预计可省 ");
    s.append(human_size(saved).as_str());
    s.append("，耗时 ");
    s.append(seconds);
    s.append("s");
    assert(s@ =~= summary_line(candidates as nat, groups as nat, saved as nat, seconds@));
    s
}

/// The log line that shows one file of the first group.
pub open spec fn sample_line(hash: Option<Seq<char>>, size: nat, path: Seq<char>) -> Seq<char> {
    "[dedup] 示例（仅记第 1 组第 1 个文件，其余不再逐条记录，逐字节比较确认一致，不是靠哈希碰巧相同）: hash="@ + (match hash {
        Some(h) => h,
        None => "(文件较大，未缓存，无哈希——判定依据是逐字节比较，不影响结果的确定性)"@,
    }) + " size="@ + decimal(size) + " 路径="@ + path
}

/// The log line that shows one file of the first group.
pub fn sample(g: &DuplicateGroup, path: &str) -> (r: String)
    ensures
        r@ == sample_line(g@.hash_hex, g.size as nat, path@),
{
    let mut s = owned(
        "[dedup] 示例（仅记第 1 组第 1 个文件，其余不再逐条记录，逐字节比较确认一致，不是靠哈希碰巧相同）: hash=",
    );
    match &g.hash_hex {
        Some(h) => s.append(h.as_str()),
        None => s.append("(文件较大，未缓存，无哈希——判定依据是逐字节比较，不影响结果的确定性)"),
    }
    s.append(" size=");
    push_decimal(&mut s, g.size);
    s.append(" 路径=");
    s.append(path);
    assert(s@ =~= sample_line(g@.hash_hex, g.size as nat, path@));
    s
}

} // verus!
