//! What the files of a volume take on disk: each one counts once, however many names it has.

use vstd::prelude::*;

use crate::mft_scan::{ContextView, LinkView};
use crate::mft_tree::{file_node, is_directory, kids_of, meta_of, names_in, tree_of};
use crate::model::{physical_total, NodeView};

verus! {

/// What some files take on disk together, each counted once.
pub open spec fn space_of(ctx: ContextView, files: Set<u64>) -> nat
    decreases files.len(),
    when files.finite()
{
    if files.len() == 0 {
        0
    } else {
        let f = files.choose();
        meta_of(ctx, f).physical_size as nat + space_of(ctx, files.remove(f))
    }
}

/// The files that have a name in a directory, or in one below it, less than `fuel` levels deep.
pub open spec fn files_below(ctx: ContextView, record: u64, fuel: nat) -> Set<u64>
    decreases fuel, 0int,
{
    if fuel == 0 {
        Set::empty()
    } else {
        files_from(ctx, names_in(ctx, record), 0, (fuel - 1) as nat)
    }
}

/// The files that the names from number `idx` on stand for, and those below directories among
/// them.
pub open spec fn files_from(ctx: ContextView, names: Seq<LinkView>, idx: int, fuel: nat) -> Set<
    u64,
>
    decreases fuel, 1 + names.len() - idx,
{
    if idx < 0 || idx >= names.len() {
        Set::empty()
    } else {
        let record = names[idx].base_record;
        let rest = files_from(ctx, names, idx + 1, fuel);
        if is_directory(ctx, record) {
            files_below(ctx, record, fuel).union(rest)
        } else {
            rest.insert(record)
        }
    }
}

proof fn lemma_space_split(ctx: ContextView, files: Set<u64>, x: u64)
    requires
        files.finite(),
        files.contains(x),
    ensures
        space_of(ctx, files) == meta_of(ctx, x).physical_size as nat + space_of(
            ctx,
            files.remove(x),
        ),
    decreases files.len(),
{
    let f = files.choose();
    if f != x {
        lemma_space_split(ctx, files.remove(f), x);
        lemma_space_split(ctx, files.remove(x), f);
        assert(files.remove(f).remove(x) =~= files.remove(x).remove(f));
    }
}

proof fn lemma_space_positive(s: Seq<NodeView>)
    ensures
        physical_total(s) >= 0,
    decreases s.len(),
{
    if s.len() > 0 {
        lemma_space_positive(s.drop_last());
    }
}

proof fn lemma_kids_space(
    ctx: ContextView,
    names: Seq<LinkView>,
    idx: int,
    depth: nat,
    built: Seq<NodeView>,
    counted: Set<u64>,
    fuel: nat,
)
    requires
        counted.finite(),
        0 <= idx,
        kids_of(ctx, names, idx, depth, built, counted, fuel) is Some,
    ensures
        ({
            let (kids, c) = kids_of(ctx, names, idx, depth, built, counted, fuel)->0;
            &&& c.finite()
            &&& c == counted.union(files_from(ctx, names, idx, fuel))
            &&& physical_total(kids) + space_of(ctx, counted) == physical_total(built) + space_of(
                ctx,
                c,
            )
        }),
    decreases fuel, 1 + names.len() - idx,
{
    if idx >= names.len() {
        assert(counted =~= counted.union(files_from(ctx, names, idx, fuel)));
    } else {
        let record = names[idx].base_record;
        let name = names[idx].name;
        let all = files_from(ctx, names, idx, fuel);
        let rest = files_from(ctx, names, idx + 1, fuel);
        if is_directory(ctx, record) {
            law_space_counts_once(ctx, record, name, depth + 1, counted, fuel);
            let (n, c) = tree_of(ctx, record, name, depth + 1, counted, fuel)->0;
            lemma_kids_space(ctx, names, idx + 1, depth, built.push(n), c, fuel);
            assert(built.push(n).drop_last() =~= built);
            assert(c.union(rest) =~= counted.union(all));
        } else {
            let n = file_node(ctx, record, name, counted);
            let c = counted.insert(record);
            lemma_kids_space(ctx, names, idx + 1, depth, built.push(n), c, fuel);
            assert(built.push(n).drop_last() =~= built);
            assert(c.union(rest) =~= counted.union(all));
            if counted.contains(record) {
                assert(c =~= counted);
            } else {
                lemma_space_split(ctx, c, record);
                assert(c.remove(record) =~= counted);
            }
        }
    }
}

/// Over a whole tree every file counts once, however many names it has: what the tree takes on
/// disk is what its files take together, less those that were counted before, and the files
/// counted afterwards are just those and the ones that have a name in it.
pub proof fn law_space_counts_once(
    ctx: ContextView,
    record: u64,
    name: Seq<char>,
    depth: nat,
    counted: Set<u64>,
    fuel: nat,
)
    requires
        counted.finite(),
        tree_of(ctx, record, name, depth, counted, fuel) is Some,
    ensures
        ({
            let (n, c) = tree_of(ctx, record, name, depth, counted, fuel)->0;
            &&& c.finite()
            &&& c == counted.union(files_below(ctx, record, fuel))
            &&& n.physical_size + space_of(ctx, counted) == space_of(ctx, c)
        }),
    decreases fuel, 0int,
{
    let names = names_in(ctx, record);
    let f = (fuel - 1) as nat;
    lemma_kids_space(ctx, names, 0, depth, Seq::empty(), counted, f);
    let (kids, c) = kids_of(ctx, names, 0, depth, Seq::empty(), counted, f)->0;
    lemma_space_positive(kids);
}

} // verus!
