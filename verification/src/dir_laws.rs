//! What is read out of the buffers of a directory, and what becomes of each entry.

use vstd::prelude::*;

use crate::bytes::le32;
use crate::dir_enum::{
    entries_from, is_dot_name, record_entry, record_fits, record_name, DirEntryView,
};
use crate::model::{NodeKind, NodeView};
use crate::record_laws::{lemma_numbers, lemma_signed, lemma_text, number_at, text_at};
use crate::scan::{leaf_of, leaves_of, seen_after_all, subdirs_of, ItemView};

verus! {

/// The length of the name in a record of a directory, in bytes.
pub open spec fn name_bytes(b: Seq<u8>, off: int) -> int {
    number_at(b, off + 60, 4)
}

/// Whether a record of a directory stands at an offset as a whole.
pub open spec fn is_dir_record(b: Seq<u8>, off: int) -> bool {
    off + 112 + name_bytes(b, off) <= b.len()
}

/// A time in eight bytes of a record: 0 where it is below 0.
pub open spec fn time_at(b: Seq<u8>, at: int) -> int {
    if number_at(b, at, 8) < 0x8000_0000_0000_0000 {
        number_at(b, at, 8)
    } else {
        0
    }
}

/// Whether an entry is the one that a record stands for.
pub open spec fn is_entry_at(b: Seq<u8>, off: int, e: DirEntryView) -> bool {
    &&& e.created_ft == time_at(b, off + 8)
    &&& e.accessed_ft == time_at(b, off + 16)
    &&& e.modified_ft == time_at(b, off + 24)
    &&& e.logical == number_at(b, off + 40, 8)
    &&& e.physical == number_at(b, off + 48, 8)
    &&& e.attrs == number_at(b, off + 56, 4)
    &&& e.is_dir <==> (number_at(b, off + 56, 4) / 16) % 2 == 1
    &&& e.file_id == number_at(b, off + 96, 8)
    &&& e.name == text_at(b, off + 104, name_bytes(b, off) / 2)
}

/// Whether the records of a buffer stand at the given offsets: each says how far behind it the
/// next one begins, the last says 0 or leads out of the buffer or to a record that is cut off.
pub open spec fn is_batch(b: Seq<u8>, first: int, offs: Seq<int>) -> bool {
    &&& offs.len() == 0 <==> !is_dir_record(b, first)
    &&& offs.len() > 0 ==> offs[0] == first
    &&& forall|k: int| #![trigger offs[k]] 0 <= k < offs.len() ==> is_dir_record(b, offs[k])
    &&& forall|k: int| #![trigger offs[k]]
        0 <= k < offs.len() - 1 ==> number_at(b, offs[k], 4) > 0 && offs[k + 1] == offs[k]
            + number_at(b, offs[k], 4)
    &&& offs.len() > 0 ==> {
        let next = number_at(b, offs.last(), 4);
        next == 0 || offs.last() + next >= b.len() || !is_dir_record(b, offs.last() + next)
    }
}

/// Those of some records that do not stand for the directory itself or for the one above it.
pub open spec fn proper(b: Seq<u8>, offs: Seq<int>) -> Seq<int>
    decreases offs.len(),
{
    if offs.len() == 0 {
        Seq::empty()
    } else {
        let name = text_at(b, offs[0] + 104, name_bytes(b, offs[0]) / 2);
        if name == "."@ || name == ".."@ {
            proper(b, offs.skip(1))
        } else {
            seq![offs[0]] + proper(b, offs.skip(1))
        }
    }
}

proof fn lemma_sixteen(n: u32)
    by (bit_vector)
    ensures
        n & 0x10 != 0 <==> (n / 16) % 2 == 1,
{
}

proof fn lemma_entry(b: Seq<u8>, off: int)
    ensures
        is_entry_at(b, off, record_entry(b, off)),
        record_fits(b, off) <==> is_dir_record(b, off),
        record_name(b, off) == text_at(b, off + 104, name_bytes(b, off) / 2),
{
    lemma_numbers(b, off + 60);
    lemma_text(b, off + 104, (name_bytes(b, off) / 2) as nat);
    lemma_entry_numbers(b, off);
}

proof fn lemma_entry_numbers(b: Seq<u8>, off: int)
    ensures
        ({
            let e = record_entry(b, off);
            &&& e.created_ft == time_at(b, off + 8)
            &&& e.accessed_ft == time_at(b, off + 16)
            &&& e.modified_ft == time_at(b, off + 24)
            &&& e.logical == number_at(b, off + 40, 8)
            &&& e.physical == number_at(b, off + 48, 8)
            &&& e.attrs == number_at(b, off + 56, 4)
            &&& e.is_dir <==> (number_at(b, off + 56, 4) / 16) % 2 == 1
            &&& e.file_id == number_at(b, off + 96, 8)
        }),
{
    lemma_signed(b, off + 8);
    lemma_signed(b, off + 16);
    lemma_signed(b, off + 24);
    lemma_numbers(b, off + 40);
    lemma_numbers(b, off + 48);
    lemma_numbers(b, off + 56);
    lemma_numbers(b, off + 96);
    lemma_sixteen(le32(b, off + 56));
}

/// Reading a buffer gives an entry for each of its records, in their order and but for those of
/// the directory itself and the one above it, with every number taken from its own place.
pub proof fn law_buffer_is_read(b: Seq<u8>, first: int, offs: Seq<int>)
    requires
        first >= 0,
        is_batch(b, first, offs),
    ensures
        entries_from(b, first).len() == proper(b, offs).len(),
        forall|i: int|
            0 <= i < proper(b, offs).len() ==> is_entry_at(
                b,
                proper(b, offs)[i],
                #[trigger] entries_from(b, first)[i],
            ),
    decreases offs.len(),
{
    lemma_entry(b, first);
    lemma_numbers(b, first);
    if offs.len() > 0 {
        let rest = offs.skip(1);
        let next = first + number_at(b, first, 4);
        let more = proper(b, rest);
        let all = entries_from(b, first);
        assert(is_dir_record(b, offs[0]));
        if offs.len() > 1 {
            assert(offs[1] == next);
            assert(is_dir_record(b, offs[1]));
            assert forall|k: int| #![trigger rest[k]] 0 <= k < rest.len() implies is_dir_record(
                b,
                rest[k],
            ) by {
                assert(is_dir_record(b, offs[k + 1]));
            }
            assert forall|k: int| #![trigger rest[k]] 0 <= k < rest.len() - 1 implies number_at(
                b,
                rest[k],
                4,
            ) > 0 && rest[k + 1] == rest[k] + number_at(b, rest[k], 4) by {
                assert(offs[k + 2] == offs[k + 1] + number_at(b, offs[k + 1], 4));
            }
            assert(rest.last() == offs.last());
            assert(is_batch(b, next, rest));
            assert(name_bytes(b, next) >= 0) by {
                lemma_numbers(b, next + 60);
            }
            law_buffer_is_read(b, next, rest);
            let tail = entries_from(b, next);
            assert(crate::dir_enum::goes_on(b, first));
            if is_dot_name(record_name(b, first)) {
                assert(all =~= tail);
            } else {
                assert(all =~= seq![record_entry(b, first)] + tail);
                assert forall|i: int| 0 <= i < proper(b, offs).len() implies is_entry_at(
                    b,
                    proper(b, offs)[i],
                    #[trigger] all[i],
                ) by {
                    if i > 0 {
                        assert(all[i] == tail[i - 1]);
                        assert(proper(b, offs)[i] == more[i - 1]);
                    }
                }
            }
        } else {
            assert(rest =~= Seq::<int>::empty());
            if crate::dir_enum::goes_on(b, first) {
                lemma_entry(b, next);
                assert(entries_from(b, next) =~= Seq::<DirEntryView>::empty());
            }
        }
    }
}

/// Whether an entry is a directory to go into: no link and no other reparse point.
pub open spec fn is_entered(e: DirEntryView) -> bool {
    e.is_dir && e.attrs & 0x400 == 0
}

/// Whether a file of the given number was met before entry number `k`.
pub open spec fn was_met(items: Seq<ItemView>, seen: Set<u64>, k: int, id: u64) -> bool {
    seen.contains(id) || exists|j: int|
        0 <= j < k && !(#[trigger] items[j]).0.is_dir && items[j].0.file_id == id
}

/// Whether a node is what becomes of entry number `k`: it has the name, the times, the size and
/// the attributes of the entry. It takes the space of the entry, but for a file that was met
/// before under another name. It has a tag where it is a reparse point.
pub open spec fn is_leaf_for(
    n: NodeView,
    items: Seq<ItemView>,
    seen: Set<u64>,
    k: int,
) -> bool {
    let (e, tag) = items[k];
    &&& n.name == e.name
    &&& n.modified_ft == e.modified_ft
    &&& n.created_ft == e.created_ft
    &&& n.accessed_ft == e.accessed_ft
    &&& e.attrs != 0 ==> n.attributes == e.attrs
    &&& n.children.len() == 0
    &&& e.is_dir <==> n.kind == NodeKind::Folder
    &&& e.is_dir ==> n.logical_size == 0 && n.physical_size == 0 && n.reparse_tag == tag
    &&& !e.is_dir ==> {
        &&& n.logical_size == e.logical
        &&& e.file_id != 0 && was_met(items, seen, k, e.file_id) ==> n.physical_size == 0
        &&& e.file_id == 0 || !was_met(items, seen, k, e.file_id) ==> n.physical_size == e.physical
        &&& e.attrs & 0x400 != 0 ==> n.reparse_tag == tag
        &&& e.attrs & 0x400 == 0 ==> n.reparse_tag == 0
    }
}

proof fn lemma_met(items: Seq<ItemView>, seen: Set<u64>, id: u64)
    requires
        id != 0,
    ensures
        seen_after_all(items, seen).contains(id) <==> was_met(items, seen, items.len() as int, id),
    decreases items.len(),
{
    if items.len() > 0 {
        let front = items.drop_last();
        lemma_met(front, seen, id);
        if was_met(front, seen, front.len() as int, id) && !seen.contains(id) {
            let j = choose|j: int|
                0 <= j < front.len() && !(#[trigger] front[j]).0.is_dir && front[j].0.file_id == id;
            assert(items[j] == front[j]);
        }
        if was_met(items, seen, items.len() as int, id) && !seen.contains(id) {
            let j = choose|j: int|
                0 <= j < items.len() && !(#[trigger] items[j]).0.is_dir && items[j].0.file_id == id;
            if j < front.len() {
                assert(front[j] == items[j]);
            }
        }
        if items.last().0.file_id == id && !items.last().0.is_dir {
            assert(items[items.len() - 1].0.file_id == id);
        }
    }
}

proof fn lemma_leaves(items: Seq<ItemView>, depth: int, seen: Set<u64>) -> (ks: Seq<int>)
    ensures
        is_sorted_out(items, seen, leaves_of(items, depth, seen), ks),
    decreases items.len(),
{
    if items.len() == 0 {
        Seq::empty()
    } else {
        let front = items.drop_last();
        let last = items.len() - 1;
        let ks0 = lemma_leaves(front, depth, seen);
        let old_leaves = leaves_of(front, depth, seen);
        let leaves = leaves_of(items, depth, seen);
        assert forall|i: int| 0 <= i < ks0.len() implies 0 <= #[trigger] ks0[i] < last
            && !is_entered(items[ks0[i]].0) && is_leaf_for(old_leaves[i], items, seen, ks0[i]) by {
            lemma_earlier(front, items, seen, ks0[i], old_leaves[i]);
        }
        if is_entered(items[last].0) {
            assert(leaves == old_leaves);
            assert forall|k: int| 0 <= k < items.len() && !is_entered(
                (#[trigger] items[k]).0,
            ) implies ks0.contains(k) by {
                assert(front[k] == items[k]);
            }
            ks0
        } else {
            let ks = ks0.push(last);
            let id = items[last].0.file_id;
            if id != 0 {
                lemma_met(front, seen, id);
                lemma_same_met(front, items, seen, id);
            }
            assert(leaves == old_leaves.push(leaf_of(items[last], depth, seen_after_all(front, seen))));
            assert(leaf_of(items[last], depth, seen_after_all(front, seen)).children =~= Seq::<
                NodeView,
            >::empty()) by {
                let lt = |a: NodeView, b: NodeView| crate::model::child_before(a, b);
                assert(crate::sorting::stable_sort(Seq::<NodeView>::empty(), lt) =~= Seq::<
                    NodeView,
                >::empty());
            }
            assert(is_leaf_for(leaves[ks0.len() as int], items, seen, last));
            assert forall|i: int| 0 <= i < ks.len() implies 0 <= #[trigger] ks[i] < items.len()
                && !is_entered(items[ks[i]].0) && is_leaf_for(leaves[i], items, seen, ks[i]) by {
                if i < ks0.len() {
                    assert(ks[i] == ks0[i]);
                    assert(leaves[i] == old_leaves[i]);
                }
            }
            assert forall|i: int, j: int| 0 <= i < j < ks.len() implies #[trigger] ks[i]
                < #[trigger] ks[j] by {
                assert(ks[i] == ks0[i]);
                if j < ks0.len() {
                    assert(ks[j] == ks0[j]);
                }
            }
            assert forall|k: int| 0 <= k < items.len() && !is_entered(
                (#[trigger] items[k]).0,
            ) implies ks.contains(k) by {
                if k < last {
                    assert(front[k] == items[k]);
                    let i = choose|i: int| 0 <= i < ks0.len() && ks0[i] == k;
                    assert(ks[i] == k);
                } else {
                    assert(ks[ks0.len() as int] == k);
                }
            }
            ks
        }
    }
}

proof fn lemma_same_met(front: Seq<ItemView>, items: Seq<ItemView>, seen: Set<u64>, id: u64)
    requires
        items.len() > 0,
        front == items.drop_last(),
    ensures
        forall|k: int|
            0 <= k <= front.len() ==> (#[trigger] was_met(front, seen, k, id) <==> was_met(
                items,
                seen,
                k,
                id,
            )),
{
    assert forall|k: int| 0 <= k <= front.len() implies (#[trigger] was_met(front, seen, k, id)
        <==> was_met(items, seen, k, id)) by {
        assert forall|j: int| 0 <= j < k implies front[j] == items[j] by {}
        if was_met(front, seen, k, id) && !seen.contains(id) {
            let j = choose|j: int|
                0 <= j < k && !(#[trigger] front[j]).0.is_dir && front[j].0.file_id == id;
            assert(items[j] == front[j]);
        }
        if was_met(items, seen, k, id) && !seen.contains(id) {
            let j = choose|j: int|
                0 <= j < k && !(#[trigger] items[j]).0.is_dir && items[j].0.file_id == id;
            assert(items[j] == front[j]);
        }
    }
}

proof fn lemma_earlier(
    front: Seq<ItemView>,
    items: Seq<ItemView>,
    seen: Set<u64>,
    k: int,
    n: NodeView,
)
    requires
        items.len() > 0,
        front == items.drop_last(),
        0 <= k < front.len(),
        is_leaf_for(n, front, seen, k),
    ensures
        is_leaf_for(n, items, seen, k),
{
    assert(front[k] == items[k]);
    lemma_same_met(front, items, seen, items[k].0.file_id);
    assert(was_met(front, seen, k, items[k].0.file_id) <==> was_met(
        items,
        seen,
        k,
        items[k].0.file_id,
    ));
}

/// Whether nodes are what becomes of the entries of a directory that are not gone into: `ks` says
/// which entry each of them is, in the order of the entries and without leaving any out.
pub open spec fn is_sorted_out(
    items: Seq<ItemView>,
    seen: Set<u64>,
    leaves: Seq<NodeView>,
    ks: Seq<int>,
) -> bool {
    &&& ks.len() == leaves.len()
    &&& forall|i: int|
        0 <= i < ks.len() ==> 0 <= #[trigger] ks[i] < items.len() && !is_entered(items[ks[i]].0)
            && is_leaf_for(leaves[i], items, seen, ks[i])
    &&& forall|i: int, j: int| 0 <= i < j < ks.len() ==> #[trigger] ks[i] < #[trigger] ks[j]
    &&& forall|k: int|
        0 <= k < items.len() && !is_entered((#[trigger] items[k]).0) ==> ks.contains(k)
}

/// Every entry of a directory either becomes a node, as it is, or is gone into: files and
/// links become nodes, directories that are no links are gone into, and nothing is left out.
pub proof fn law_entries_are_sorted_out(items: Seq<ItemView>, depth: int, seen: Set<u64>)
    ensures
        exists|ks: Seq<int>| is_sorted_out(items, seen, leaves_of(items, depth, seen), ks),
        leaves_of(items, depth, seen).len() + subdirs_of(items).len() == items.len(),
        forall|e: DirEntryView| #[trigger]
            subdirs_of(items).contains(e) <==> is_entered(e) && exists|k: int|
                0 <= k < items.len() && #[trigger] items[k].0 == e,
        forall|id: u64|
            id != 0 ==> (#[trigger] seen_after_all(items, seen).contains(id) <==> was_met(
                items,
                seen,
                items.len() as int,
                id,
            )),
    decreases items.len(),
{
    let ks = lemma_leaves(items, depth, seen);
    assert forall|id: u64| id != 0 implies (#[trigger] seen_after_all(items, seen).contains(id)
        <==> was_met(items, seen, items.len() as int, id)) by {
        lemma_met(items, seen, id);
    }
    if items.len() > 0 {
        let front = items.drop_last();
        let last = items.len() - 1;
        law_entries_are_sorted_out(front, depth, seen);
        assert forall|e: DirEntryView| #[trigger]
            subdirs_of(items).contains(e) <==> is_entered(e) && exists|k: int|
                0 <= k < items.len() && #[trigger] items[k].0 == e by {
            if subdirs_of(items).contains(e) {
                let i = choose|i: int| 0 <= i < subdirs_of(items).len() && subdirs_of(items)[i] == e;
                if i < subdirs_of(front).len() {
                    assert(subdirs_of(front)[i] == e);
                    assert(subdirs_of(front).contains(e));
                    let k = choose|k: int| 0 <= k < front.len() && #[trigger] front[k].0 == e;
                    assert(items[k].0 == e);
                } else {
                    assert(items[last].0 == e);
                }
            }
            if is_entered(e) && exists|k: int|
                0 <= k < items.len() && #[trigger] items[k].0 == e {
                let k = choose|k: int| 0 <= k < items.len() && #[trigger] items[k].0 == e;
                if k < last {
                    assert(front[k].0 == e);
                    assert(subdirs_of(front).contains(e));
                    let i = choose|i: int|
                        0 <= i < subdirs_of(front).len() && subdirs_of(front)[i] == e;
                    assert(subdirs_of(items)[i] == e);
                } else {
                    assert(subdirs_of(items).last() == e);
                    assert(subdirs_of(items)[subdirs_of(items).len() - 1] == e);
                }
            }
        }
    }
}

} // verus!
