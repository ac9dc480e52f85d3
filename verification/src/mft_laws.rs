//! In what order a master file table is read, and what its tree shows of it.

use vstd::prelude::*;

use crate::mft_load::{byte_total, request_at, settled, with_chunk, Position, CHUNK_SIZE};
use crate::mft_scan::{with_record, ContextView, LinkView, Run};
use crate::mft_tree::{directory_node, file_node, is_directory, kids_of, names_in, tree_of};
use crate::model::{NodeKind, NodeView};
use crate::model_laws::law_folder_is_made_of_its_children;

verus! {

/// Whether a node shows what is known of a record: its name, times, attributes and tag. The
/// records below 16 are the system's own.
pub open spec fn shows_record(ctx: ContextView, n: NodeView, link: LinkView) -> bool {
    &&& n.name == link.name
    &&& n.is_reserved <==> link.base_record < 16
    &&& n.owner.len() == 0
    &&& ctx.records.contains_key(link.base_record) ==> {
        let m = ctx.records[link.base_record];
        &&& n.created_ft == m.created_ft
        &&& n.accessed_ft == m.accessed_ft
        &&& n.reparse_tag == m.reparse_tag
        &&& m.attributes != 0 ==> n.attributes == m.attributes
    }
}

/// Whether a node shows a name that stands for a file: it has the size of the record, and takes
/// either its space or, where that was counted under another name, none.
pub open spec fn shows_file(ctx: ContextView, n: NodeView, link: LinkView) -> bool {
    &&& shows_record(ctx, n, link)
    &&& n.kind == NodeKind::File
    &&& n.children.len() == 0
    &&& ctx.records.contains_key(link.base_record)
    &&& n.logical_size == ctx.records[link.base_record].logical_size
    &&& n.physical_size == ctx.records[link.base_record].physical_size || n.physical_size == 0
    &&& n.modified_ft == ctx.records[link.base_record].last_modified_ft
}

/// Whether a record is a directory: bit 0x10 of its attributes is set, or nothing is known of it.
pub open spec fn is_dir_record(ctx: ContextView, record: u64) -> bool {
    ctx.records.contains_key(record) ==> ctx.records[record].attributes & 0x10 != 0
}

/// Whether a node shows a name that stands for a directory, and everything below it: there is
/// one child for each name in the directory, a file for a file and a folder for a directory.
pub open spec fn shows_directory(
    ctx: ContextView,
    n: NodeView,
    link: LinkView,
    fuel: nat,
) -> bool
    decreases fuel, 0int,
{
    &&& fuel > 0
    &&& shows_record(ctx, n, link)
    &&& n.kind == NodeKind::Folder
    &&& exists|kids: Seq<NodeView>| #[trigger]
        kids.to_multiset() == n.children.to_multiset() && shows_all(
            ctx,
            kids,
            if ctx.children.contains_key(link.base_record) {
                ctx.children[link.base_record]
            } else {
                Seq::empty()
            },
            (fuel - 1) as nat,
        )
}

/// Whether nodes show names, one for each in their order.
pub open spec fn shows_all(
    ctx: ContextView,
    kids: Seq<NodeView>,
    names: Seq<LinkView>,
    fuel: nat,
) -> bool
    decreases fuel, 1int,
{
    &&& kids.len() == names.len()
    &&& forall|i: int| #![trigger kids[i]]
        0 <= i < kids.len() ==> if is_dir_record(ctx, names[i].base_record) {
            shows_directory(ctx, kids[i], names[i], fuel)
        } else {
            shows_file(ctx, kids[i], names[i])
        }
}

proof fn lemma_file_shown(ctx: ContextView, link: LinkView, counted: Set<u64>)
    requires
        !is_directory(ctx, link.base_record),
    ensures
        shows_file(ctx, file_node(ctx, link.base_record, link.name, counted), link),
{
    assert(0x10u32 & 0x10u32 != 0) by (bit_vector);
}

proof fn lemma_kinds_agree(ctx: ContextView, record: u64)
    ensures
        is_directory(ctx, record) <==> is_dir_record(ctx, record),
{
    assert(0x10u32 & 0x10u32 != 0) by (bit_vector);
}

proof fn lemma_directory_shown(
    ctx: ContextView,
    link: LinkView,
    depth: nat,
    counted: Set<u64>,
    fuel: nat,
)
    requires
        tree_of(ctx, link.base_record, link.name, depth, counted, fuel) is Some,
    ensures
        shows_directory(
            ctx,
            (tree_of(ctx, link.base_record, link.name, depth, counted, fuel)->0).0,
            link,
            fuel,
        ),
    decreases fuel, 0int,
{
    let names = names_in(ctx, link.base_record);
    let f = (fuel - 1) as nat;
    let n = (tree_of(ctx, link.base_record, link.name, depth, counted, fuel)->0).0;
    lemma_kids_shown(ctx, names, 0, depth, Seq::empty(), counted, f);
    let (kids, c) = kids_of(ctx, names, 0, depth, Seq::empty(), counted, f)->0;
    let m = crate::mft_tree::meta_of(ctx, link.base_record);
    law_folder_is_made_of_its_children(
        link.name,
        crate::mft_tree::tint_of(depth),
        kids,
        m.last_modified_ft,
        m.created_ft,
        m.accessed_ft,
        m.attributes,
        m.reparse_tag,
        link.base_record < 16,
        Seq::empty(),
    );
    assert(n == directory_node(ctx, link.base_record, link.name, depth, kids));
    assert(kids.to_multiset() == n.children.to_multiset());
}

proof fn lemma_kids_shown(
    ctx: ContextView,
    names: Seq<LinkView>,
    idx: int,
    depth: nat,
    built: Seq<NodeView>,
    counted: Set<u64>,
    fuel: nat,
)
    requires
        0 <= idx <= names.len(),
        shows_all(ctx, built, names.take(idx), fuel),
        kids_of(ctx, names, idx, depth, built, counted, fuel) is Some,
    ensures
        shows_all(
            ctx,
            (kids_of(ctx, names, idx, depth, built, counted, fuel)->0).0,
            names,
            fuel,
        ),
    decreases fuel, 1 + names.len() - idx,
{
    if idx == names.len() {
        assert(names.take(idx) =~= names);
    } else {
        let link = names[idx];
        lemma_kinds_agree(ctx, link.base_record);
        if is_directory(ctx, link.base_record) {
            lemma_directory_shown(ctx, link, depth + 1, counted, fuel);
            let (n, c) = tree_of(ctx, link.base_record, link.name, depth + 1, counted, fuel)->0;
            lemma_one_more(ctx, built, n, names, idx, fuel);
            lemma_kids_shown(ctx, names, idx + 1, depth, built.push(n), c, fuel);
        } else {
            lemma_file_shown(ctx, link, counted);
            let n = file_node(ctx, link.base_record, link.name, counted);
            lemma_one_more(ctx, built, n, names, idx, fuel);
            lemma_kids_shown(
                ctx,
                names,
                idx + 1,
                depth,
                built.push(n),
                counted.insert(link.base_record),
                fuel,
            );
        }
    }
}

proof fn lemma_one_more(
    ctx: ContextView,
    built: Seq<NodeView>,
    n: NodeView,
    names: Seq<LinkView>,
    idx: int,
    fuel: nat,
)
    requires
        0 <= idx < names.len(),
        shows_all(ctx, built, names.take(idx), fuel),
        if is_dir_record(ctx, names[idx].base_record) {
            shows_directory(ctx, n, names[idx], fuel)
        } else {
            shows_file(ctx, n, names[idx])
        },
    ensures
        shows_all(ctx, built.push(n), names.take(idx + 1), fuel),
{
    let all = built.push(n);
    let next = names.take(idx + 1);
    assert forall|i: int| #![trigger all[i]] 0 <= i < all.len() implies if is_dir_record(
        ctx,
        next[i].base_record,
    ) {
        shows_directory(ctx, all[i], next[i], fuel)
    } else {
        shows_file(ctx, all[i], next[i])
    } by {
        if i < built.len() {
            assert(all[i] == built[i]);
            assert(next[i] == names.take(idx)[i]);
        }
    }
}

/// The tree of a directory shows the table that it is made from: every name in every directory
/// has a node of its own in the folder of that directory, with the size, the times and the
/// attributes of its record, and there are no other nodes.
pub proof fn law_tree_shows_the_table(
    ctx: ContextView,
    link: LinkView,
    depth: nat,
    counted: Set<u64>,
    fuel: nat,
)
    requires
        tree_of(ctx, link.base_record, link.name, depth, counted, fuel) is Some,
    ensures
        shows_directory(
            ctx,
            (tree_of(ctx, link.base_record, link.name, depth, counted, fuel)->0).0,
            link,
            fuel,
        ),
{
    lemma_directory_shown(ctx, link, depth, counted, fuel);
}

/// A file that was not counted yet takes the space of its record, and one that was takes none.
pub proof fn law_first_name_takes_the_space(ctx: ContextView, link: LinkView, counted: Set<u64>)
    requires
        ctx.records.contains_key(link.base_record),
    ensures
        file_node(ctx, link.base_record, link.name, counted).physical_size == if counted.contains(
            link.base_record,
        ) {
            0
        } else {
            ctx.records[link.base_record].physical_size
        },
{
}

/// Whether everything before a position was read: so much of the table is done as the runs
/// before it hold, and what is done of its own run.
pub open spec fn is_on_track(runs: Seq<Run>, cluster: u32, p: Position) -> bool {
    &&& 0 <= p.run <= runs.len()
    &&& p.run_done >= 0
    &&& p.logical_done == byte_total(runs.take(p.run), cluster) + p.run_done
    &&& p.run == runs.len() ==> p.run_done == 0
    &&& p.run < runs.len() ==> p.run_done <= runs[p.run].2 * cluster
    &&& p.run < runs.len() && runs[p.run].1 < 0 ==> p.run_done == 0
}

proof fn lemma_bytes_step(runs: Seq<Run>, cluster: u32, i: int)
    requires
        0 <= i < runs.len(),
    ensures
        byte_total(runs.take(i + 1), cluster) == byte_total(runs.take(i), cluster) + runs[i].2
            * cluster,
{
    assert(runs.take(i + 1).drop_last() =~= runs.take(i));
    let a = crate::mft_load::cluster_total(runs.take(i));
    assert((a + runs[i].2) * cluster == a * cluster + runs[i].2 * cluster) by (nonlinear_arith);
}

proof fn lemma_settled(runs: Seq<Run>, cluster: u32, total: u64, p: Position)
    requires
        is_on_track(runs, cluster, p),
    ensures
        ({
            let q = settled(runs, cluster, total, p);
            &&& q.run < runs.len() ==> is_on_track(runs, cluster, q) && q.logical_done < total
                && q.run_done < runs[q.run].2 * cluster && runs[q.run].1 >= 0
            &&& q.run >= runs.len() ==> q.logical_done >= total || q.logical_done == byte_total(
                runs,
                cluster,
            ) || exists|i: int|
                0 <= i < runs.len() && (#[trigger] runs[i]).1 * cluster + runs[i].2 * cluster
                    > u64::MAX
            &&& q.run >= p.run
        }),
    decreases runs.len() - p.run,
{
    if p.run < runs.len() {
        let (vcn, lcn, clusters) = runs[p.run];
        let bytes = clusters * cluster;
        lemma_bytes_step(runs, cluster, p.run);
        assert(bytes >= 0) by (nonlinear_arith)
            requires
                bytes == clusters * cluster,
                clusters >= 0,
                cluster >= 0,
        ;
        if lcn < 0 {
            lemma_next_on_track(runs, cluster, p.run + 1);
            lemma_settled(
                runs,
                cluster,
                total,
                Position { run: p.run + 1, run_done: 0, logical_done: p.logical_done + bytes },
            );
        } else if p.run_done < bytes && p.logical_done < total {
            if lcn * cluster + bytes > u64::MAX {
                assert(runs[p.run].1 * cluster + runs[p.run].2 * cluster > u64::MAX);
            }
        } else if p.logical_done >= total {
            lemma_done(runs, cluster, total, Position { run: p.run + 1, run_done: 0, ..p });
        } else {
            lemma_next_on_track(runs, cluster, p.run + 1);
            lemma_settled(
                runs,
                cluster,
                total,
                Position { run: p.run + 1, run_done: 0, ..p },
            );
        }
    } else {
        assert(runs.take(p.run) =~= runs);
    }
}

proof fn lemma_next_on_track(runs: Seq<Run>, cluster: u32, i: int)
    requires
        0 <= i <= runs.len(),
    ensures
        i < runs.len() ==> 0 <= runs[i].2 * cluster,
{
    if i < runs.len() {
        let c = runs[i].2;
        assert(0 <= c * cluster) by (nonlinear_arith)
            requires
                c >= 0,
                cluster >= 0,
        ;
    }
}

proof fn lemma_done(runs: Seq<Run>, cluster: u32, total: u64, p: Position)
    requires
        p.logical_done >= total,
        0 <= p.run <= runs.len(),
    ensures
        settled(runs, cluster, total, p).run >= runs.len(),
        settled(runs, cluster, total, p).logical_done >= total,
        settled(runs, cluster, total, p).run >= p.run,
    decreases runs.len() - p.run,
{
    if p.run < runs.len() {
        let (vcn, lcn, clusters) = runs[p.run];
        let bytes = clusters * cluster;
        lemma_next_on_track(runs, cluster, p.run);
        if lcn < 0 {
            lemma_done(
                runs,
                cluster,
                total,
                Position { run: p.run + 1, run_done: 0, logical_done: p.logical_done + bytes },
            );
        } else {
            lemma_done(runs, cluster, total, Position { run: p.run + 1, run_done: 0, ..p });
        }
    }
}

/// Whether `len` bytes of a file from byte `logical` on lie together on the volume from byte
/// `offset` on, in one of the runs.
pub open spec fn lies_at(
    runs: Seq<Run>,
    cluster: u32,
    run: int,
    logical: int,
    offset: int,
    len: int,
) -> bool {
    let before = byte_total(runs.take(run), cluster);
    &&& 0 <= run < runs.len()
    &&& runs[run].1 >= 0
    &&& before <= logical
    &&& logical + len <= before + runs[run].2 * cluster
    &&& offset == runs[run].1 * cluster + (logical - before)
}

/// A table is read from its first byte to its last: the piece asked for next is the one that
/// follows what was read, it lies on the volume where the runs say, it is not empty, and none is
/// asked for only once all is read, or where a run lies beyond what can be addressed.
pub proof fn law_table_is_read_in_order(runs: Seq<Run>, cluster: u32, total: u64, p: Position)
    requires
        cluster > 0,
        is_on_track(runs, cluster, p),
    ensures
        ({
            let q = settled(runs, cluster, total, p);
            match request_at(runs, cluster, q) {
                Some(piece) => {
                    &&& is_on_track(runs, cluster, q)
                    &&& q.logical_done < total
                    &&& 0 < piece.len <= CHUNK_SIZE
                    &&& runs[q.run].1 * cluster + runs[q.run].2 * cluster <= u64::MAX ==> lies_at(
                        runs,
                        cluster,
                        q.run,
                        q.logical_done,
                        piece.offset as int,
                        piece.len as int,
                    )
                    &&& piece.len < CHUNK_SIZE ==> q.run_done + piece.len == runs[q.run].2 * cluster
                },
                None => q.logical_done >= total || q.logical_done == byte_total(runs, cluster)
                    || exists|i: int|
                    0 <= i < runs.len() && (#[trigger] runs[i]).1 * cluster + runs[i].2 * cluster
                        > u64::MAX,
            }
        }),
{
    lemma_settled(runs, cluster, total, p);
    let q = settled(runs, cluster, total, p);
    if q.run < runs.len() {
        let (vcn, lcn, clusters) = runs[q.run];
        assert(lcn * cluster >= 0) by (nonlinear_arith)
            requires
                lcn >= 0,
                cluster > 0,
        ;
    }
}

/// A piece of a table that holds whole records, read in two parts, gives what it gives in one.
pub proof fn law_pieces_of_the_table_add_up(
    ctx: ContextView,
    a: Seq<u8>,
    b: Seq<u8>,
    logical: int,
    record: int,
    sector: int,
    n: nat,
)
    requires
        record > 0,
        a.len() == n * record,
    ensures
        with_chunk(ctx, a + b, logical, 0, record, sector) == with_chunk(
            with_chunk(ctx, a, logical, 0, record, sector),
            b,
            logical + a.len(),
            0,
            record,
            sector,
        ),
{
    lemma_chunk_split(ctx, a, b, logical, 0, record, sector, n);
}

proof fn lemma_chunk_split(
    ctx: ContextView,
    a: Seq<u8>,
    b: Seq<u8>,
    logical: int,
    off: int,
    record: int,
    sector: int,
    n: nat,
)
    requires
        record > 0,
        0 <= off <= a.len(),
        a.len() == off + n * record,
    ensures
        with_chunk(ctx, a + b, logical, off, record, sector) == with_chunk(
            with_chunk(ctx, a, logical, off, record, sector),
            b,
            logical + a.len(),
            0,
            record,
            sector,
        ),
    decreases n,
{
    if n == 0 {
        assert(0 * record == 0) by (nonlinear_arith);
        assert(with_chunk(ctx, a, logical, off, record, sector) == ctx);
        lemma_chunk_shift(ctx, a, b, logical, 0, record, sector);
    } else {
        assert(n * record == record + (n - 1) * record) by (nonlinear_arith);
        assert((n - 1) * record >= 0) by (nonlinear_arith)
            requires
                n >= 1,
                record > 0,
        ;
        let one = a.subrange(off, off + record);
        assert((a + b).subrange(off, off + record) =~= one);
        let next = with_record(ctx, one, ((logical + off) / record) as u64, sector);
        lemma_chunk_split(next, a, b, logical, off + record, record, sector, (n - 1) as nat);
    }
}

proof fn lemma_chunk_shift(
    ctx: ContextView,
    a: Seq<u8>,
    b: Seq<u8>,
    logical: int,
    off: int,
    record: int,
    sector: int,
)
    requires
        record > 0,
        0 <= off,
    ensures
        with_chunk(ctx, a + b, logical, a.len() + off, record, sector) == with_chunk(
            ctx,
            b,
            logical + a.len(),
            off,
            record,
            sector,
        ),
    decreases b.len() - off,
{
    if off + record <= b.len() {
        let one = b.subrange(off, off + record);
        assert((a + b).subrange(a.len() + off, a.len() + off + record) =~= one);
        let next = with_record(ctx, one, ((logical + a.len() + off) / record) as u64, sector);
        lemma_chunk_shift(next, a, b, logical, off + record, record, sector);
    }
}

/// A piece of a table that is one record is read as the record whose number its place gives, and
/// less than a record is not read at all.
pub proof fn law_record_goes_by_its_place(
    ctx: ContextView,
    b: Seq<u8>,
    number: u64,
    record: int,
    sector: int,
)
    requires
        record > 0,
    ensures
        b.len() == record ==> with_chunk(ctx, b, number * record, 0, record, sector) == with_record(
            ctx,
            b,
            number,
            sector,
        ),
        b.len() < record ==> with_chunk(ctx, b, number * record, 0, record, sector) == ctx,
{
    if b.len() == record {
        assert(b.subrange(0, record) =~= b);
        vstd::arithmetic::div_mod::lemma_div_by_multiple(number as int, record);
        let next = with_record(ctx, b, number, sector);
        assert(with_chunk(next, b, number * record, record, record, sector) == next);
    }
}

} // verus!
