//! Making trees from a [`NameIndex`] again.

use vstd::prelude::*;

use crate::index_model::{
    assemble, leading, linked_at, loose_nodes, node_of, rebuilt, root_node, under_root, EntryView,
    Loose,
};
use crate::model::{forest_view, Node, NodeKind};
use crate::search_index::NameIndex;
use crate::text::owned;

verus! {

/// A finished subtree that waits for its parent.
struct StackItem {
    pi: u32,
    depth: u32,
    node: Node,
}

spec fn loose_of(it: StackItem) -> Loose {
    Loose { pi: it.pi as int, depth: it.depth as int, node: it.node@ }
}

/// The subtrees on the stack, the top one first.
spec fn loose_stack(stack: Seq<StackItem>) -> Seq<Loose> {
    Seq::new(stack.len(), |i: int| loose_of(stack[stack.len() - 1 - i]))
}

proof fn lemma_stack_pop(stack: Seq<StackItem>)
    requires
        stack.len() > 0,
    ensures
        loose_stack(stack)[0] == loose_of(stack.last()),
        loose_stack(stack).skip(1) == loose_stack(stack.drop_last()),
{
    assert(loose_stack(stack).skip(1) =~= loose_stack(stack.drop_last()));
}

proof fn lemma_leading_bound(loose: Seq<Loose>, depth: int)
    ensures
        leading(loose, depth) <= loose.len(),
    decreases loose.len(),
{
    if loose.len() > 0 && loose[0].depth == depth {
        lemma_leading_bound(loose.skip(1), depth);
    }
}

/// Takes the subtrees at a depth off the top of the stack.
fn take_children(stack: &mut Vec<StackItem>, depth: u32) -> (children: Vec<Node>)
    ensures
        ({
            let all = loose_stack(old(stack)@);
            let n = leading(all, depth as int) as int;
            &&& forest_view(children@) == loose_nodes(all.take(n))
            &&& loose_stack(final(stack)@) == all.skip(n)
        }),
{
    let ghost all = loose_stack(stack@);
    let ghost n = leading(all, depth as int) as int;
    let mut children: Vec<Node> = Vec::new();
    proof {
        lemma_leading_bound(all, depth as int);
        assert(all.skip(0) =~= all);
        assert(forest_view(children@) =~= loose_nodes(all.take(0)));
    }
    while stack.len() > 0 && stack[stack.len() - 1].depth == depth
        invariant
            all == loose_stack(old(stack)@),
            n == leading(all, depth as int),
            n <= all.len(),
            children@.len() <= n,
            loose_stack(stack@) == all.skip(children@.len() as int),
            leading(all.skip(children@.len() as int), depth as int) == n - children@.len(),
            forest_view(children@) == loose_nodes(all.take(children@.len() as int)),
        ensures
            children@.len() == n,
            loose_stack(stack@) == all.skip(n),
            forest_view(children@) == loose_nodes(all.take(n)),
        decreases stack@.len(),
    {
        let ghost k = children@.len() as int;
        proof {
            lemma_stack_pop(stack@);
            assert(all.skip(k).skip(1) =~= all.skip(k + 1));
        }
        if let Some(it) = stack.pop() {
            let ghost before = children@;
            children.push(it.node);
            proof {
                assert(all.skip(k)[0] == all[k]);
                assert(loose_nodes(all.take(k + 1)) =~= loose_nodes(all.take(k)).push(all[k].node));
                assert(forest_view(children@) =~= forest_view(before).push(it.node@));
            }
        }
    }
    children
}

proof fn lemma_under_root_push(loose: Seq<Loose>, x: Loose, pi: int)
    ensures
        under_root(loose.push(x), pi) == if x.pi == pi {
            under_root(loose, pi).push(x.node)
        } else {
            under_root(loose, pi)
        },
{
    assert(loose.push(x).drop_last() =~= loose);
}

/// The subtrees on a stack, sorted by the root they stand under.
fn sort_by_root(stack: Vec<StackItem>, roots: usize) -> (top: Vec<Vec<Node>>)
    requires
        forall|k: int| 0 <= k < stack@.len() ==> (#[trigger] stack@[k]).pi < roots,
    ensures
        top@.len() == roots,
        forall|pi: int|
            0 <= pi < roots ==> forest_view((#[trigger] top@[pi])@) == under_root(
                loose_stack(stack@),
                pi,
            ),
{
    let ghost all = loose_stack(stack@);
    let mut stack = stack;
    let mut top: Vec<Vec<Node>> = Vec::new();
    let mut k: usize = 0;
    while k < roots
        invariant
            k <= roots,
            top@.len() == k,
            forall|pi: int| 0 <= pi < k ==> (#[trigger] top@[pi])@.len() == 0,
        decreases roots - k,
    {
        top.push(Vec::new());
        k += 1;
    }
    let ghost mut done: Seq<Loose> = Seq::empty();
    proof {
        assert(done + loose_stack(stack@) =~= all);
        assert forall|pi: int| 0 <= pi < roots implies forest_view((#[trigger] top@[pi])@)
            == under_root(done, pi) by {
            assert(forest_view(top@[pi]@) =~= under_root(done, pi));
        }
    }
    while stack.len() > 0
        invariant
            top@.len() == roots,
            done + loose_stack(stack@) == all,
            forall|k: int| 0 <= k < stack@.len() ==> (#[trigger] stack@[k]).pi < roots,
            forall|pi: int|
                0 <= pi < roots ==> forest_view((#[trigger] top@[pi])@) == under_root(done, pi),
        decreases stack@.len(),
    {
        proof {
            lemma_stack_pop(stack@);
        }
        let ghost before = stack@;
        if let Some(it) = stack.pop() {
            let at: usize = it.pi as usize;
            let ghost x = loose_of(it);
            assert(before[before.len() - 1] == it);
            let ghost top0 = top@;
            let ghost list0 = top@[at as int]@;
            top[at].push(it.node);
            proof {
                assert(top@[at as int]@ == list0.push(it.node));
                assert(forest_view(top@[at as int]@) =~= forest_view(list0).push(it.node@));
                assert forall|pi: int| 0 <= pi < roots implies forest_view((#[trigger] top@[pi])@)
                    == under_root(done.push(x), pi) by {
                    lemma_under_root_push(done, x, pi);
                    if pi != at {
                        assert(top@[pi] == top0[pi]);
                    }
                }
                let rest = loose_stack(stack@);
                assert(loose_stack(before) =~= seq![x] + rest);
                assert(done.push(x) + rest =~= done + loose_stack(before));
                done = done.push(x);
            }
        }
    }
    proof {
        assert(loose_stack(stack@) =~= Seq::<Loose>::empty());
        assert(done =~= all);
    }
    top
}

impl NameIndex {
    /// Makes the trees again that this is the index of, as far as it keeps them.
    pub fn rebuild_tree(&self) -> (r: Vec<Node>)
        requires
            self.wf(),
        ensures
            forest_view(r@) == rebuilt(self@),
    {
        let ghost es = self@.entries;
        let ghost roots = self@.roots.len() as int;
        proof {
            self.lemma_shape();
        }
        let mut stack: Vec<StackItem> = Vec::new();
        let mut i: usize = self.len();
        assert(loose_stack(stack@) =~= assemble(es, i as int));
        while i > 0
            invariant
                self.wf(),
                es == self@.entries,
                roots == self@.roots.len(),
                crate::index_model::well_linked(es, roots),
                es.len() < u32::MAX,
                i <= es.len(),
                loose_stack(stack@) == assemble(es, i as int),
            decreases i,
        {
            i -= 1;
            let e = self.entry(i);
            proof {
                assert(linked_at(es, roots, i as int));
            }
            let children = take_children(&mut stack, e.depth + 1);
            let ghost kids = forest_view(children@);
            let node = Node {
                name: owned(self.name_orig(i)),
                size: e.logical_size,
                logical_size: e.logical_size,
                physical_size: e.physical_size,
                kind: if e.is_file() {
                    NodeKind::File
                } else {
                    NodeKind::Folder
                },
                color: 0xFFFF_FFFF,
                children,
                expanded: false,
                file_count: e.file_count as u64,
                folder_count: e.folder_count as u64,
                modified_ft: e.modified_ft,
                created_ft: e.created_ft,
                accessed_ft: e.accessed_ft,
                attributes: e.attributes,
                reparse_tag: e.reparse_tag,
                is_reserved: e.is_reserved(),
                owner: owned(self.owner(i)),
                full_path_override: None,
            };
            proof {
                crate::model::lemma_children(node);
                assert(node@ =~= node_of(es[i as int], kids));
            }
            let ghost under = stack@;
            stack.push(StackItem { pi: e.pi, depth: e.depth, node });
            proof {
                assert(loose_stack(stack@) =~= seq![loose_of(stack@.last())] + loose_stack(under));
            }
        }
        proof {
            assert forall|k: int| 0 <= k < stack@.len() implies (#[trigger] stack@[k]).pi
                < roots by {
                lemma_assemble_roots(es, roots, 0);
                let l = loose_stack(stack@)[stack@.len() - 1 - k];
                assert(l.pi == stack@[k].pi);
            }
        }
        let n: usize = self.root_count();
        let mut top = sort_by_root(stack, n);
        let ghost given = top@;
        let ghost all = assemble(es, 0);
        let mut r: Vec<Node> = Vec::new();
        let mut pi: usize = 0;
        while pi < n
            invariant
                self.wf(),
                n == self@.roots.len(),
                pi <= n,
                top@.len() == n,
                forall|k: int|
                    pi <= k < n ==> forest_view((#[trigger] top@[k])@) == under_root(all, k),
                r@.len() == pi,
                forall|k: int|
                    0 <= k < pi ==> (#[trigger] r@[k])@ == root_node(
                        self@.roots[k],
                        under_root(all, k),
                    ),
            decreases n - pi,
        {
            let info = self.root_info(pi);
            let mut children: Vec<Node> = Vec::new();
            std::mem::swap(&mut children, &mut top[pi]);
            let node = Node {
                name: info.name.clone(),
                size: info.logical_size,
                logical_size: info.logical_size,
                physical_size: info.physical_size,
                kind: NodeKind::Folder,
                color: 0xFFFF_FFFF,
                children,
                expanded: false,
                file_count: info.file_count,
                folder_count: info.folder_count,
                modified_ft: info.modified_ft,
                created_ft: info.created_ft,
                accessed_ft: info.accessed_ft,
                attributes: info.attributes,
                reparse_tag: info.reparse_tag,
                is_reserved: info.is_reserved,
                owner: info.owner.clone(),
                full_path_override: None,
            };
            proof {
                crate::model::lemma_children(node);
                assert(node@ =~= root_node(self@.roots[pi as int], under_root(all, pi as int)));
            }
            r.push(node);
            pi += 1;
        }
        assert(forest_view(r@) =~= rebuilt(self@));
        r
    }
}

proof fn lemma_assemble_roots(es: Seq<EntryView>, roots: int, i: int)
    requires
        crate::index_model::well_linked(es, roots),
        0 <= i <= es.len(),
    ensures
        forall|k: int| 0 <= k < assemble(es, i).len() ==> 0 <= (#[trigger] assemble(es, i)[k]).pi
            < roots,
    decreases es.len() - i,
{
    if i < es.len() {
        lemma_assemble_roots(es, roots, i + 1);
        assert(linked_at(es, roots, i));
        let rest = assemble(es, i + 1);
        let n = leading(rest, es[i].depth + 1) as int;
        lemma_leading_bound(rest, es[i].depth + 1);
        let all = assemble(es, i);
        assert forall|k: int| 0 <= k < all.len() implies 0 <= (#[trigger] all[k]).pi < roots by {
            if k > 0 {
                assert(all[k] == rest[k - 1 + n]);
            }
        }
    }
}

} // verus!
