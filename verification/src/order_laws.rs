//! That lists stand in the order of the column they are sorted by.

use vstd::prelude::*;
use vstd::utf8::encode_utf8;

use crate::compact_tree;
use crate::grouping::{by_key, key_order, lemma_key_order};
use crate::index_model::{entry_before, key_less, EntryView};
use crate::model::{NodeView, SortDir, SortKey, SortState};
use crate::sorting::{is_order, law_sort_permutes, law_sort_sorts, stable_sort};
use crate::text::{folded, lex_less, text_less};
use crate::tree_list;

verus! {

/// Whether one byte string stands before another in a dictionary: they agree up to some place,
/// and there the first one ends or has the smaller byte.
pub open spec fn stands_before(a: Seq<u8>, b: Seq<u8>) -> bool {
    exists|k: int| #[trigger] parts_at(a, b, k)
}

/// Whether two byte strings agree before place `k`, and there the first one ends or has the
/// smaller byte.
pub open spec fn parts_at(a: Seq<u8>, b: Seq<u8>, k: int) -> bool {
    &&& 0 <= k <= a.len()
    &&& k < b.len()
    &&& forall|i: int| 0 <= i < k ==> #[trigger] a[i] == b[i]
    &&& k == a.len() || a[k] < b[k]
}

/// Texts are compared as in a dictionary, byte by byte, capital letters from A to Z taken for
/// small ones.
pub proof fn law_texts_stand_as_in_a_dictionary(a: Seq<char>, b: Seq<char>)
    ensures
        text_less(a, b) <==> stands_before(folded(encode_utf8(a)), folded(encode_utf8(b))),
{
    lemma_dictionary(folded(encode_utf8(a)), folded(encode_utf8(b)));
}

proof fn lemma_dictionary(a: Seq<u8>, b: Seq<u8>)
    ensures
        lex_less(a, b) <==> stands_before(a, b),
    decreases a.len(),
{
    if b.len() == 0 {
    } else if a.len() == 0 {
        assert(parts_at(a, b, 0));
    } else if a[0] == b[0] {
        let (x, y) = (a.skip(1), b.skip(1));
        lemma_dictionary(x, y);
        if lex_less(a, b) {
            let k = choose|k: int| #[trigger] parts_at(x, y, k);
            assert forall|i: int| 0 <= i < k + 1 implies #[trigger] a[i] == b[i] by {
                if i > 0 {
                    assert(x[i - 1] == y[i - 1]);
                }
            }
            assert(parts_at(a, b, k + 1));
        }
        if stands_before(a, b) {
            let k = choose|k: int| #[trigger] parts_at(a, b, k);
            assert(k > 0);
            assert forall|i: int| 0 <= i < k - 1 implies #[trigger] x[i] == y[i] by {
                assert(a[i + 1] == b[i + 1]);
            }
            assert(parts_at(x, y, k - 1));
        }
    } else {
        if a[0] < b[0] {
            assert(parts_at(a, b, 0));
        }
        if stands_before(a, b) {
            let k = choose|k: int| #[trigger] parts_at(a, b, k);
            assert(k == 0);
        }
    }
}

/// The number that a node has in a column of numbers.
pub open spec fn figure(key: SortKey, n: NodeView) -> Option<int> {
    match key {
        SortKey::Size => Some(n.logical_size as int),
        SortKey::Physical => Some(n.physical_size as int),
        SortKey::Modified => Some(n.modified_ft as int),
        SortKey::Created => Some(n.created_ft as int),
        SortKey::Accessed => Some(n.accessed_ft as int),
        SortKey::Items => Some(n.file_count + n.folder_count),
        SortKey::Files => Some(n.file_count as int),
        SortKey::Folders => Some(n.folder_count as int),
        SortKey::Attributes => Some(n.attributes as int),
        SortKey::Reparse => Some(n.reparse_tag as int),
        SortKey::Reserved => Some(
            if n.is_reserved {
                1
            } else {
                0
            },
        ),
        _ => None,
    }
}

/// The text that a node has in a column of texts.
pub open spec fn wording(key: SortKey, n: NodeView) -> Option<Seq<char>> {
    match key {
        SortKey::Name => Some(n.name),
        SortKey::Owner => Some(n.owner),
        _ => None,
    }
}

/// The children of a node are all shown, once each, and in the order of the column: numbers and
/// texts rise where the order is ascending and fall where it is descending. Of those that are
/// equal in it the earlier child comes first where the order is ascending, and last where it is
/// descending.
pub proof fn law_children_stand_in_order(kids: Seq<NodeView>, sort: SortState, i: int, j: int)
    requires
        kids.len() <= usize::MAX,
        0 <= i < j < kids.len(),
    ensures
        ({
            let o = tree_list::child_order(kids, sort);
            let (x, y) = if sort.dir == SortDir::Asc {
                (o[i], o[j])
            } else {
                (o[j], o[i])
            };
            let (a, b) = (kids[x as int], kids[y as int]);
            &&& o.len() == kids.len()
            &&& x < kids.len() && y < kids.len() && x != y
            &&& figure(sort.key, a) is Some ==> figure(sort.key, a)->0 <= figure(sort.key, b)->0
            &&& figure(sort.key, a) is Some && figure(sort.key, a) == figure(sort.key, b) ==> x < y
            &&& wording(sort.key, a) is Some ==> !text_less(
                wording(sort.key, b)->0,
                wording(sort.key, a)->0,
            )
        }),
{
    let lt = |a: NodeView, b: NodeView| tree_list::node_less(sort.key, a, b);
    tree_list::lemma_by_column(kids, sort.key);
    assert(is_order(lt)) by {
        assert forall|a: NodeView, b: NodeView| #[trigger] lt(a, b) implies !lt(b, a) by {
            tree_list::lemma_text_order(a.name, b.name, b.name);
            tree_list::lemma_text_order(a.owner, b.owner, b.owner);
        }
        assert forall|a: NodeView, b: NodeView, c: NodeView|
            #![trigger lt(a, b), lt(b, c)]
            !lt(a, b) && !lt(b, c) implies !lt(a, c) by {
            tree_list::lemma_text_order(a.name, b.name, c.name);
            tree_list::lemma_text_order(a.owner, b.owner, c.owner);
        }
    }
    assert(by_key(kids, lt) =~= tree_list::by_column(kids, sort.key));
    lemma_key_order(kids, kids.len(), lt);
    let up = key_order(kids, kids.len(), lt);
    let o = tree_list::child_order(kids, sort);
    let n = kids.len() as int;
    if sort.dir == SortDir::Asc {
        assert(o == up);
        assert(!lt(kids[up[j] as int], kids[up[i] as int]));
    } else {
        assert(o == up.reverse());
        assert(o[i] == up[n - 1 - i] && o[j] == up[n - 1 - j]);
        assert(!lt(kids[up[n - 1 - i] as int], kids[up[n - 1 - j] as int]));
    }
}

/// The rows of a list of groups stand in the order of its column as those of a tree do.
pub proof fn law_group_rows_stand_in_order(
    kids: Seq<NodeView>,
    sort: compact_tree::SortState,
    i: int,
    j: int,
)
    requires
        kids.len() <= usize::MAX,
        0 <= i < j < kids.len(),
    ensures
        ({
            let o = compact_tree::child_order(kids, sort);
            let (x, y) = if sort.dir == compact_tree::SortDir::Asc {
                (o[i], o[j])
            } else {
                (o[j], o[i])
            };
            let (a, b) = (kids[x as int], kids[y as int]);
            &&& o.len() == kids.len()
            &&& x < kids.len() && y < kids.len() && x != y
            &&& match sort.key {
                compact_tree::SortKey::Name => !text_less(b.name, a.name),
                compact_tree::SortKey::Size => a.logical_size < b.logical_size || a.logical_size
                    == b.logical_size && x < y,
                compact_tree::SortKey::Modified => a.modified_ft < b.modified_ft || a.modified_ft
                    == b.modified_ft && x < y,
                compact_tree::SortKey::Path => a.full_path_override is Some
                    && b.full_path_override is Some ==> !text_less(
                    b.full_path_override->0,
                    a.full_path_override->0,
                ),
            }
        }),
{
    let lt = |a: NodeView, b: NodeView| compact_tree::node_less(sort.key, a, b);
    assert(is_order(lt)) by {
        assert forall|a: NodeView, b: NodeView| #[trigger] lt(a, b) implies !lt(b, a) by {
            tree_list::lemma_text_order(a.name, b.name, b.name);
            tree_list::lemma_text_order(
                compact_tree::own_path(a),
                compact_tree::own_path(b),
                compact_tree::own_path(b),
            );
        }
        assert forall|a: NodeView, b: NodeView, c: NodeView|
            #![trigger lt(a, b), lt(b, c)]
            !lt(a, b) && !lt(b, c) implies !lt(a, c) by {
            tree_list::lemma_text_order(a.name, b.name, c.name);
            tree_list::lemma_text_order(
                compact_tree::own_path(a),
                compact_tree::own_path(b),
                compact_tree::own_path(c),
            );
        }
    }
    assert(by_key(kids, lt) =~= compact_tree::by_column(kids, sort.key));
    lemma_key_order(kids, kids.len(), lt);
    let up = key_order(kids, kids.len(), lt);
    let o = compact_tree::child_order(kids, sort);
    let n = kids.len() as int;
    if sort.dir == compact_tree::SortDir::Asc {
        assert(o == up);
        assert(!lt(kids[up[j] as int], kids[up[i] as int]));
    } else {
        assert(o == up.reverse());
        assert(o[i] == up[n - 1 - i] && o[j] == up[n - 1 - j]);
        assert(!lt(kids[up[n - 1 - i] as int], kids[up[n - 1 - j] as int]));
    }
}

/// The number that an entry of an index has in a column of numbers.
pub open spec fn entry_figure(key: SortKey, e: EntryView) -> Option<int> {
    match key {
        SortKey::Size => Some(e.logical_size as int),
        SortKey::Physical => Some(e.physical_size as int),
        SortKey::Modified => Some(e.modified_ft as int),
        SortKey::Created => Some(e.created_ft as int),
        SortKey::Accessed => Some(e.accessed_ft as int),
        SortKey::Items => Some(e.file_count + e.folder_count),
        SortKey::Files => Some(e.file_count as int),
        SortKey::Folders => Some(e.folder_count as int),
        SortKey::Attributes => Some(e.attributes as int),
        SortKey::Reparse => Some(e.reparse_tag as int),
        SortKey::Reserved => Some(
            if e.is_reserved {
                1
            } else {
                0
            },
        ),
        _ => None,
    }
}

/// The text that an entry of an index has in a column of texts.
pub open spec fn entry_wording(key: SortKey, e: EntryView) -> Option<Seq<char>> {
    match key {
        SortKey::Name => Some(e.name),
        SortKey::Owner => Some(e.owner),
        SortKey::Path => Some(
            if e.dir is Some {
                e.dir->0
            } else {
                Seq::empty()
            },
        ),
        _ => None,
    }
}

proof fn lemma_entry_order(entries: Seq<EntryView>, key: SortKey, dir: SortDir)
    ensures
        is_order(
            |a: u32, b: u32| entry_before(key, dir, entries[a as int], entries[b as int]),
        ),
{
    let lt = |a: u32, b: u32| entry_before(key, dir, entries[a as int], entries[b as int]);
    assert forall|a: u32, b: u32| #[trigger] lt(a, b) implies !lt(b, a) by {
        lemma_key_less(key, entries[a as int], entries[b as int], entries[b as int]);
        lemma_key_less(key, entries[b as int], entries[a as int], entries[a as int]);
    }
    assert forall|a: u32, b: u32, c: u32|
        #![trigger lt(a, b), lt(b, c)]
        !lt(a, b) && !lt(b, c) implies !lt(a, c) by {
        lemma_key_less(key, entries[a as int], entries[b as int], entries[c as int]);
        lemma_key_less(key, entries[c as int], entries[b as int], entries[a as int]);
    }
}

proof fn lemma_key_less(key: SortKey, a: EntryView, b: EntryView, c: EntryView)
    ensures
        key_less(key, a, b) ==> !key_less(key, b, a),
        !key_less(key, a, b) && !key_less(key, b, c) ==> !key_less(key, a, c),
{
    tree_list::lemma_text_order(a.name, b.name, c.name);
    tree_list::lemma_text_order(a.owner, b.owner, c.owner);
    tree_list::lemma_text_order(
        crate::index_model::shown_dir(a),
        crate::index_model::shown_dir(b),
        crate::index_model::shown_dir(c),
    );
}

/// Search results that are sorted are the same results, in the order of the column: numbers and
/// texts rise where the order is ascending and fall where it is descending.
pub proof fn law_results_stand_in_order(
    entries: Seq<EntryView>,
    order: Seq<u32>,
    key: SortKey,
    dir: SortDir,
)
    ensures
        ({
            let o = stable_sort(
                order,
                |a: u32, b: u32| entry_before(key, dir, entries[a as int], entries[b as int]),
            );
            &&& o.to_multiset() == order.to_multiset()
            &&& o.len() == order.len()
            &&& forall|i: int, j: int| #![trigger o[i], o[j]]
                0 <= i < j < o.len() ==> {
                    let (x, y) = if dir == SortDir::Asc {
                        (o[i], o[j])
                    } else {
                        (o[j], o[i])
                    };
                    let (a, b) = (entries[x as int], entries[y as int]);
                    &&& entry_figure(key, a) is Some ==> entry_figure(key, a)->0 <= entry_figure(
                        key,
                        b,
                    )->0
                    &&& entry_wording(key, a) is Some ==> !text_less(
                        entry_wording(key, b)->0,
                        entry_wording(key, a)->0,
                    )
                }
        }),
{
    let lt = |a: u32, b: u32| entry_before(key, dir, entries[a as int], entries[b as int]);
    lemma_entry_order(entries, key, dir);
    law_sort_permutes(order, lt);
    law_sort_sorts(order, lt);
    let o = stable_sort(order, lt);
    assert forall|i: int, j: int| #![trigger o[i], o[j]] 0 <= i < j < o.len() implies {
        let (x, y) = if dir == SortDir::Asc {
            (o[i], o[j])
        } else {
            (o[j], o[i])
        };
        let (a, b) = (entries[x as int], entries[y as int]);
        &&& entry_figure(key, a) is Some ==> entry_figure(key, a)->0 <= entry_figure(key, b)->0
        &&& entry_wording(key, a) is Some ==> !text_less(
            entry_wording(key, b)->0,
            entry_wording(key, a)->0,
        )
    } by {
        assert(!lt(o[j], o[i]));
    }
}

} // verus!
