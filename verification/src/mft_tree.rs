//! The tree of a volume, made from what its master file table says.

use std::collections::HashSet;

use vstd::prelude::*;
use vstd::set_lib::set_int_range;

use crate::fs_attrs::FILE_ATTRIBUTE_DIRECTORY;
use crate::mft_scan::{
    blank_record, links_view, ContextView, FileRecordBase, FileRecordName, LinkView, NtfsContext,
    NTFS_RESERVED_MAX, NTFS_ROOT_RECORD,
};
use crate::model::{
    file_view, folder_view, forest_view, totals_fit, totals_in_range, Node, NodeView,
};
use crate::theme::{folder_color, Color32, FILE_COLOR, FOLDER_PALETTE};

verus! {

broadcast use vstd::std_specs::hash::group_hash_axioms;

/// What is known of a record. One of which nothing is known counts as a directory.
pub open spec fn meta_of(ctx: ContextView, record: u64) -> FileRecordBase {
    if ctx.records.contains_key(record) {
        ctx.records[record]
    } else {
        FileRecordBase { attributes: FILE_ATTRIBUTE_DIRECTORY, ..blank_record() }
    }
}

/// Whether a record is a directory.
pub open spec fn is_directory(ctx: ContextView, record: u64) -> bool {
    meta_of(ctx, record).attributes & FILE_ATTRIBUTE_DIRECTORY != 0
}

/// The names in a directory.
pub open spec fn names_in(ctx: ContextView, record: u64) -> Seq<LinkView> {
    if ctx.children.contains_key(record) {
        ctx.children[record]
    } else {
        Seq::empty()
    }
}

/// The colour of a folder at a depth.
pub open spec fn tint_of(depth: nat) -> Color32 {
    FOLDER_PALETTE@[depth as int % 6]
}

/// The node of a file. What it takes on disk counts once, however many names it has.
pub open spec fn file_node(
    ctx: ContextView,
    record: u64,
    name: Seq<char>,
    counted: Set<u64>,
) -> NodeView {
    let m = meta_of(ctx, record);
    file_view(
        name,
        m.logical_size,
        if counted.contains(record) {
            0
        } else {
            m.physical_size
        },
        FILE_COLOR,
        m.last_modified_ft,
        m.created_ft,
        m.accessed_ft,
        m.attributes,
        m.reparse_tag,
        record < NTFS_RESERVED_MAX,
        Seq::empty(),
    )
}

/// The node of a directory with the given children.
pub open spec fn directory_node(
    ctx: ContextView,
    record: u64,
    name: Seq<char>,
    depth: nat,
    kids: Seq<NodeView>,
) -> NodeView {
    let m = meta_of(ctx, record);
    folder_view(
        name,
        tint_of(depth),
        kids,
        m.last_modified_ft,
        m.created_ft,
        m.accessed_ft,
        m.attributes,
        m.reparse_tag,
        record < NTFS_RESERVED_MAX,
        Seq::empty(),
    )
}

/// The tree of a directory that is less than `fuel` levels deep, and the files whose size on
/// disk has been counted once it is made. There is none where it is deeper, or where a total
/// does not fit.
pub open spec fn tree_of(
    ctx: ContextView,
    record: u64,
    name: Seq<char>,
    depth: nat,
    counted: Set<u64>,
    fuel: nat,
) -> Option<(NodeView, Set<u64>)>
    decreases fuel, 0int,
{
    if fuel == 0 {
        None
    } else {
        match kids_of(
            ctx,
            names_in(ctx, record),
            0,
            depth,
            Seq::empty(),
            counted,
            (fuel - 1) as nat,
        ) {
            Some((kids, c)) => if totals_fit(kids) {
                Some((directory_node(ctx, record, name, depth, kids), c))
            } else {
                None
            },
            None => None,
        }
    }
}

/// The children of a directory at `depth`: those made already, and those for the names from
/// number `idx` on.
pub open spec fn kids_of(
    ctx: ContextView,
    names: Seq<LinkView>,
    idx: int,
    depth: nat,
    built: Seq<NodeView>,
    counted: Set<u64>,
    fuel: nat,
) -> Option<(Seq<NodeView>, Set<u64>)>
    decreases fuel, 1 + names.len() - idx,
{
    if idx < 0 || idx >= names.len() {
        Some((built, counted))
    } else {
        let record = names[idx].base_record;
        let name = names[idx].name;
        if is_directory(ctx, record) {
            match tree_of(ctx, record, name, depth + 1, counted, fuel) {
                Some((n, c)) => kids_of(ctx, names, idx + 1, depth, built.push(n), c, fuel),
                None => None,
            }
        } else {
            kids_of(
                ctx,
                names,
                idx + 1,
                depth,
                built.push(file_node(ctx, record, name, counted)),
                counted.insert(record),
                fuel,
            )
        }
    }
}

/// A directory whose children are being made.
#[verifier::ext_equal]
struct FrameView {
    name: Seq<char>,
    record: u64,
    depth: nat,
    names: Seq<LinkView>,
    next: int,
    built: Seq<NodeView>,
}

/// What comes out once all directories on the stack are finished, from the top down.
spec fn resume(ctx: ContextView, fs: Seq<FrameView>, counted: Set<u64>, fuel: nat) -> Option<
    (NodeView, Set<u64>),
>
    decreases fs.len(),
{
    if fs.len() == 0 || fuel < fs.len() {
        None
    } else {
        let top = fs.last();
        match kids_of(
            ctx,
            top.names,
            top.next,
            top.depth,
            top.built,
            counted,
            (fuel - fs.len()) as nat,
        ) {
            Some((kids, c)) => if totals_fit(kids) {
                let node = directory_node(ctx, top.record, top.name, top.depth, kids);
                if fs.len() == 1 {
                    Some((node, c))
                } else {
                    resume(ctx, give(fs.drop_last(), node), c, fuel)
                }
            } else {
                None
            },
            None => None,
        }
    }
}

/// The directories with a finished node handed to the top one.
spec fn give(fs: Seq<FrameView>, node: NodeView) -> Seq<FrameView> {
    let top = fs.last();
    fs.drop_last().push(FrameView { built: top.built.push(node), ..top })
}

/// The directories with the top one on its next name.
spec fn skip_one(fs: Seq<FrameView>) -> Seq<FrameView> {
    let top = fs.last();
    fs.drop_last().push(FrameView { next: top.next + 1, ..top })
}

/// The top directory goes on with a file.
proof fn lemma_resume_file(ctx: ContextView, fs: Seq<FrameView>, counted: Set<u64>, fuel: nat)
    requires
        fs.len() > 0,
        0 <= fs.last().next < fs.last().names.len(),
        !is_directory(ctx, fs.last().names[fs.last().next].base_record),
    ensures
        ({
            let top = fs.last();
            let link = top.names[top.next];
            resume(ctx, fs, counted, fuel) == resume(
                ctx,
                give(skip_one(fs), file_node(ctx, link.base_record, link.name, counted)),
                counted.insert(link.base_record),
                fuel,
            )
        }),
{
    let top = fs.last();
    let link = top.names[top.next];
    let node = file_node(ctx, link.base_record, link.name, counted);
    let gs = give(skip_one(fs), node);
    assert(gs.drop_last() =~= fs.drop_last());
}

/// The top directory goes on with a directory, which becomes the top one.
proof fn lemma_resume_directory(
    ctx: ContextView,
    fs: Seq<FrameView>,
    counted: Set<u64>,
    fuel: nat,
)
    requires
        fs.len() > 0,
        0 <= fs.last().next < fs.last().names.len(),
        is_directory(ctx, fs.last().names[fs.last().next].base_record),
    ensures
        ({
            let top = fs.last();
            let link = top.names[top.next];
            resume(ctx, fs, counted, fuel) == resume(
                ctx,
                skip_one(fs).push(opened(ctx, link, top.depth + 1)),
                counted,
                fuel,
            )
        }),
{
    let top = fs.last();
    let link = top.names[top.next];
    let gs = skip_one(fs);
    let child = opened(ctx, link, top.depth + 1);
    let hs = gs.push(child);
    reveal_with_fuel(resume, 3);
    assert(hs.drop_last() =~= gs);
    if fuel >= fs.len() {
        let f = (fuel - fs.len()) as nat;
        match tree_of(ctx, link.base_record, link.name, top.depth + 1, counted, f) {
            Some((n, c)) => {
                let ks = give(gs, n);
                assert(ks.drop_last() =~= fs.drop_last());
                assert(ks.last() =~= (FrameView {
                    next: top.next + 1,
                    built: top.built.push(n),
                    ..top
                }));
            },
            None => {},
        }
    }
}

/// A directory none of whose children is made yet.
spec fn opened(ctx: ContextView, link: LinkView, depth: nat) -> FrameView {
    FrameView {
        name: link.name,
        record: link.base_record,
        depth,
        names: names_in(ctx, link.base_record),
        next: 0,
        built: Seq::empty(),
    }
}

/// The records of the directories on the stack.
spec fn records_of(fs: Seq<FrameView>) -> Seq<u64> {
    Seq::new(fs.len(), |i: int| fs[i].record)
}

/// Some directory under some name has a tree that is less than `fuel` levels deep.
pub open spec fn settles(ctx: ContextView, record: u64, fuel: nat) -> bool {
    exists|name: Seq<char>, depth: nat, counted: Set<u64>|
        #[trigger] tree_of(ctx, record, name, depth, counted, fuel) is Some
}

/// A directory is named in another one.
pub open spec fn holds(ctx: ContextView, parent: u64, child: u64) -> bool {
    is_directory(ctx, child) && exists|i: int|
        0 <= i < names_in(ctx, parent).len() && (#[trigger] names_in(ctx, parent)[i]).base_record
            == child
}

proof fn lemma_kids_settle(
    ctx: ContextView,
    names: Seq<LinkView>,
    idx: int,
    depth: nat,
    built: Seq<NodeView>,
    counted: Set<u64>,
    fuel: nat,
    i: int,
)
    requires
        kids_of(ctx, names, idx, depth, built, counted, fuel) is Some,
        0 <= idx <= i < names.len(),
        is_directory(ctx, names[i].base_record),
    ensures
        settles(ctx, names[i].base_record, fuel),
    decreases names.len() - idx,
{
    let record = names[idx].base_record;
    let name = names[idx].name;
    if is_directory(ctx, record) {
        let t = tree_of(ctx, record, name, depth + 1, counted, fuel);
        assert(t is Some);
        if idx < i {
            let (n, c) = t->0;
            lemma_kids_settle(ctx, names, idx + 1, depth, built.push(n), c, fuel, i);
        }
    } else {
        lemma_kids_settle(
            ctx,
            names,
            idx + 1,
            depth,
            built.push(file_node(ctx, record, name, counted)),
            counted.insert(record),
            fuel,
            i,
        );
    }
}

proof fn lemma_settles_below(ctx: ContextView, parent: u64, child: u64, fuel: nat)
    requires
        settles(ctx, parent, fuel),
        holds(ctx, parent, child),
    ensures
        fuel > 0,
        settles(ctx, child, (fuel - 1) as nat),
{
    let (name, depth, counted) = choose|name: Seq<char>, depth: nat, counted: Set<u64>|
        #[trigger] tree_of(ctx, parent, name, depth, counted, fuel) is Some;
    let names = names_in(ctx, parent);
    let i = choose|i: int| 0 <= i < names.len() && (#[trigger] names[i]).base_record == child;
    lemma_kids_settle(
        ctx,
        names,
        0,
        depth,
        Seq::empty(),
        counted,
        (fuel - 1) as nat,
        i,
    );
}

/// Each record is named in the one before it.
pub open spec fn is_chain(ctx: ContextView, rs: Seq<u64>) -> bool {
    forall|i: int| 0 < i < rs.len() ==> holds(ctx, rs[i - 1], #[trigger] rs[i])
}

proof fn lemma_chain_settles(ctx: ContextView, rs: Seq<u64>, i: int, j: int, fuel: nat)
    requires
        is_chain(ctx, rs),
        0 <= i <= j < rs.len(),
        settles(ctx, rs[i], fuel),
    ensures
        fuel >= j - i,
        settles(ctx, rs[j], (fuel - (j - i)) as nat),
    decreases j - i,
{
    if i < j {
        lemma_chain_settles(ctx, rs, i, j - 1, fuel);
        assert(holds(ctx, rs[j - 1], rs[j]));
        lemma_settles_below(ctx, rs[j - 1], rs[j], (fuel - (j - 1 - i)) as nat);
    }
}

proof fn lemma_no_loop(ctx: ContextView, rs: Seq<u64>, j: int, fuel: nat)
    requires
        is_chain(ctx, rs),
        0 <= j < rs.len(),
        holds(ctx, rs.last(), rs[j]),
    ensures
        !settles(ctx, rs[j], fuel),
    decreases fuel,
{
    if settles(ctx, rs[j], fuel) {
        let k = rs.len() - 1;
        lemma_chain_settles(ctx, rs, j, k, fuel);
        let f = (fuel - (k - j)) as nat;
        lemma_settles_below(ctx, rs[k], rs[j], f);
        lemma_no_loop(ctx, rs, j, (f - 1) as nat);
    }
}

/// A directory from which a chain leads back to itself has no tree, at whatever depth.
pub proof fn law_directory_loop_has_no_tree(
    ctx: ContextView,
    rs: Seq<u64>,
    j: int,
    name: Seq<char>,
    depth: nat,
    counted: Set<u64>,
    fuel: nat,
)
    requires
        is_chain(ctx, rs),
        0 <= j < rs.len(),
        holds(ctx, rs.last(), rs[j]),
    ensures
        tree_of(ctx, rs[0], name, depth, counted, fuel) is None,
{
    if tree_of(ctx, rs[0], name, depth, counted, fuel) is Some {
        assert(settles(ctx, rs[0], fuel));
        lemma_chain_settles(ctx, rs, 0, j, fuel);
        lemma_no_loop(ctx, rs, j, (fuel - j) as nat);
    }
}

/// The records that are not on the stack.
spec fn free_records(rs: Seq<u64>) -> Set<int>
    decreases rs.len(),
{
    if rs.len() == 0 {
        set_int_range(0, 0x1_0000_0000_0000_0000)
    } else {
        free_records(rs.drop_last()).remove(rs.last() as int)
    }
}

proof fn lemma_free_records(rs: Seq<u64>, r: u64)
    ensures
        free_records(rs).finite(),
        !rs.contains(r) ==> free_records(rs).contains(r as int),
    decreases rs.len(),
{
    if rs.len() == 0 {
        vstd::set_lib::lemma_int_range(0, 0x1_0000_0000_0000_0000);
    } else {
        lemma_free_records(rs.drop_last(), r);
        if !rs.contains(r) {
            assert(rs[rs.len() - 1] != r);
            assert forall|i: int| 0 <= i < rs.drop_last().len() implies rs.drop_last()[i] != r by {
                assert(rs[i] != r);
            }
        }
    }
}

/// How many steps it takes to finish the names from number `idx` on, when no directory may be
/// entered twice on the way down.
spec fn work(ctx: ContextView, names: Seq<LinkView>, idx: int, free: Set<int>) -> nat
    decreases free.len(), names.len() - idx,
{
    if idx < 0 || idx >= names.len() {
        1
    } else {
        let record = names[idx].base_record;
        1 + work(ctx, names, idx + 1, free) + if is_directory(ctx, record) && free.finite()
            && free.contains(record as int) {
            work(ctx, names_in(ctx, record), 0, free.remove(record as int))
        } else {
            0
        }
    }
}

/// How many steps it takes to finish the directories on the stack.
spec fn stack_work(ctx: ContextView, fs: Seq<FrameView>) -> nat
    decreases fs.len(),
{
    if fs.len() == 0 {
        0
    } else {
        stack_work(ctx, fs.drop_last()) + work(
            ctx,
            fs.last().names,
            fs.last().next,
            free_records(records_of(fs)),
        )
    }
}

proof fn lemma_skip_work(ctx: ContextView, fs: Seq<FrameView>, gs: Seq<FrameView>)
    requires
        fs.len() > 0,
        0 <= fs.last().next < fs.last().names.len(),
        gs.len() == fs.len(),
        gs.drop_last() == fs.drop_last(),
        gs.last().record == fs.last().record,
        gs.last().names == fs.last().names,
        gs.last().next == fs.last().next + 1,
    ensures
        stack_work(ctx, gs) < stack_work(ctx, fs),
{
    assert(records_of(gs) =~= records_of(fs)) by {
        assert forall|i: int| 0 <= i < fs.len() implies gs[i].record == fs[i].record by {
            if i < fs.len() - 1 {
                assert(gs.drop_last()[i] == fs.drop_last()[i]);
            }
        }
    }
}

proof fn lemma_give_work(ctx: ContextView, fs: Seq<FrameView>, node: NodeView)
    requires
        fs.len() > 0,
    ensures
        stack_work(ctx, give(fs, node)) == stack_work(ctx, fs),
        records_of(give(fs, node)) == records_of(fs),
{
    let gs = give(fs, node);
    assert(gs.drop_last() =~= fs.drop_last());
    assert(records_of(gs) =~= records_of(fs));
}

proof fn lemma_open_work(ctx: ContextView, fs: Seq<FrameView>)
    requires
        fs.len() > 0,
        0 <= fs.last().next < fs.last().names.len(),
        is_directory(ctx, fs.last().names[fs.last().next].base_record),
        !records_of(fs).contains(fs.last().names[fs.last().next].base_record),
    ensures
        ({
            let top = fs.last();
            let link = top.names[top.next];
            let hs = skip_one(fs).push(opened(ctx, link, top.depth + 1));
            stack_work(ctx, hs) < stack_work(ctx, fs)
        }),
{
    let top = fs.last();
    let link = top.names[top.next];
    let gs = skip_one(fs);
    let hs = gs.push(opened(ctx, link, top.depth + 1));
    reveal_with_fuel(stack_work, 3);
    assert(hs.drop_last() =~= gs);
    assert(gs.drop_last() =~= fs.drop_last());
    assert(records_of(gs) =~= records_of(fs));
    assert(records_of(hs).drop_last() =~= records_of(fs));
    lemma_free_records(records_of(fs), link.base_record);
}


/// A directory whose children are being made.
struct Frame<'a> {
    name: String,
    record: u64,
    /// The depth, as far as the colour goes.
    tint: usize,
    names: Option<&'a Vec<FileRecordName>>,
    next: usize,
    built: Vec<Node>,
    depth: Ghost<nat>,
}

spec fn frame_view(f: Frame) -> FrameView {
    FrameView {
        name: f.name@,
        record: f.record,
        depth: f.depth@,
        names: match f.names {
            Some(v) => links_view(v@),
            None => Seq::empty(),
        },
        next: f.next as int,
        built: forest_view(f.built@),
    }
}

spec fn stack_view(s: Seq<Frame>) -> Seq<FrameView> {
    Seq::new(s.len(), |i: int| frame_view(s[i]))
}

/// The frames are those of directories, each with its own names.
spec fn frames_ok(ctx: ContextView, s: Seq<Frame>) -> bool {
    forall|i: int|
        0 <= i < s.len() ==> {
            let f = #[trigger] s[i];
            &&& f.tint < 6
            &&& f.tint == f.depth@ % 6
            &&& frame_view(f).names == names_in(ctx, f.record)
        }
}

impl NtfsContext {
    /// What is known of a record.
    fn meta(&self, record: u64) -> (m: FileRecordBase)
        ensures
            m == meta_of(self@, record),
    {
        match self.base_file_records.get(&record) {
            Some(m) => *m,
            None => {
                let mut m = FileRecordBase::default();
                m.attributes = FILE_ATTRIBUTE_DIRECTORY;
                m
            },
        }
    }

    /// The names in a directory.
    fn names(&self, record: u64) -> (r: Option<&Vec<FileRecordName>>)
        ensures
            match r {
                Some(v) => links_view(v@) == names_in(self@, record),
                None => names_in(self@, record) == Seq::<LinkView>::empty(),
            },
    {
        self.parent_to_children.get(&record)
    }
}

fn make_file(ctx: &NtfsContext, record: u64, name: String, counted: &mut HashSet<u64>) -> (n: Node)
    ensures
        n@ == file_node(ctx@, record, name@, old(counted)@),
        final(counted)@ == old(counted)@.insert(record),
{
    let m = ctx.meta(record);
    let physical: u64 = if counted.insert(record) {
        m.physical_size
    } else {
        0
    };
    let owner = String::new();
    Node::new_file_with_meta(
        name,
        m.logical_size,
        physical,
        FILE_COLOR,
        m.last_modified_ft,
        m.created_ft,
        m.accessed_ft,
        m.attributes,
        m.reparse_tag,
        record < NTFS_RESERVED_MAX,
        owner,
    )
}

fn make_folder(ctx: &NtfsContext, f: Frame) -> (n: Node)
    requires
        f.tint < 6,
        f.tint == f.depth@ % 6,
        totals_fit(forest_view(f.built@)),
    ensures
        n@ == directory_node(ctx@, f.record, f.name@, f.depth@, forest_view(f.built@)),
{
    let m = ctx.meta(f.record);
    let owner = String::new();
    Node::new_folder_with_meta(
        f.name,
        folder_color(f.tint),
        f.built,
        m.last_modified_ft,
        m.created_ft,
        m.accessed_ft,
        m.attributes,
        m.reparse_tag,
        f.record < NTFS_RESERVED_MAX,
        owner,
    )
}

fn on_stack(stack: &Vec<Frame>, record: u64) -> (r: Option<usize>)
    ensures
        match r {
            Some(j) => j < stack@.len() && stack@[j as int].record == record,
            None => !records_of(stack_view(stack@)).contains(record),
        },
{
    let mut i: usize = 0;
    while i < stack.len()
        invariant
            i <= stack@.len(),
            forall|k: int| 0 <= k < i ==> (#[trigger] stack@[k]).record != record,
        decreases stack.len() - i,
    {
        if stack[i].record == record {
            return Some(i);
        }
        i += 1;
    }
    proof {
        let rs = records_of(stack_view(stack@));
        assert forall|k: int| 0 <= k < rs.len() implies rs[k] != record by {
            assert(stack@[k].record != record);
        }
    }
    None
}

/// The directories on the stack form a chain.
spec fn chained(ctx: ContextView, s: Seq<Frame>) -> bool {
    is_chain(ctx, records_of(stack_view(s)))
}

/// The tree that is to be made.
struct Goal {
    ctx: ContextView,
    record: u64,
    name: Seq<char>,
    depth: nat,
    counted: Set<u64>,
}

/// The tree that is to be made, less than `fuel` levels deep.
spec fn goal_tree(g: Goal, fuel: nat) -> Option<(NodeView, Set<u64>)> {
    tree_of(g.ctx, g.record, g.name, g.depth, g.counted, fuel)
}

/// The state of making a tree: what is on the stack leads to the tree that is wanted, which is
/// at least `deep` levels deep.
#[verifier::opaque]
spec fn on_course(g: Goal, stack: Seq<Frame>, counted: Set<u64>, deep: nat) -> bool {
    &&& 0 < stack.len() <= deep
    &&& frames_ok(g.ctx, stack)
    &&& chained(g.ctx, stack)
    &&& stack[0].record == g.record
    &&& forall|fuel: nat| fuel < deep ==> #[trigger] goal_tree(g, fuel) is None
    &&& forall|fuel: nat|
        fuel >= deep ==> #[trigger] goal_tree(g, fuel) == resume(
            g.ctx,
            stack_view(stack),
            counted,
            fuel,
        )
}

/// `t` is `s` with another top frame for the same directory.
spec fn top_changed(s: Seq<Frame>, t: Seq<Frame>) -> bool {
    &&& s.len() > 0
    &&& t.len() == s.len()
    &&& forall|i: int| 0 <= i < s.len() - 1 ==> t[i] == s[i]
    &&& t.last().record == s.last().record
    &&& t.last().names == s.last().names
    &&& t.last().name == s.last().name
    &&& t.last().tint == s.last().tint
    &&& t.last().depth == s.last().depth
}

proof fn lemma_top_changed(ctx: ContextView, s: Seq<Frame>, t: Seq<Frame>)
    requires
        top_changed(s, t),
        frames_ok(ctx, s),
        chained(ctx, s),
    ensures
        frames_ok(ctx, t),
        chained(ctx, t),
        t[0].record == s[0].record,
        records_of(stack_view(t)) == records_of(stack_view(s)),
        stack_view(t).drop_last() == stack_view(s).drop_last(),
        stack_view(t).last() == frame_view(t.last()),
        stack_view(s).last() == frame_view(s.last()),
{
    assert(stack_view(t).drop_last() =~= stack_view(s).drop_last());
    assert(records_of(stack_view(t)) =~= records_of(stack_view(s))) by {
        assert forall|i: int| 0 <= i < s.len() implies t[i].record == s[i].record by {}
    }
    assert forall|i: int| 0 <= i < t.len() implies {
        let f = #[trigger] t[i];
        &&& f.tint < 6
        &&& f.tint == f.depth@ % 6
        &&& frame_view(f).names == names_in(ctx, f.record)
    } by {
        let f = s[i];
        assert(f.tint < 6 && f.tint == f.depth@ % 6 && frame_view(f).names == names_in(
            ctx,
            f.record,
        ));
    }
}

proof fn lemma_step_file(
    g: Goal,
    s: Seq<Frame>,
    counted: Set<u64>,
    deep: nat,
    t: Seq<Frame>,
)
    requires
        on_course(g, s, counted, deep),
        top_changed(s, t),
        ({
            let f = frame_view(s.last());
            let link = f.names[f.next];
            let node = file_node(g.ctx, link.base_record, link.name, counted);
            &&& 0 <= f.next < f.names.len()
            &&& !is_directory(g.ctx, link.base_record)
            &&& frame_view(t.last()) == (FrameView {
                next: f.next + 1,
                built: f.built.push(node),
                ..f
            })
        }),
    ensures
        ({
            let f = frame_view(s.last());
            on_course(g, t, counted.insert(f.names[f.next].base_record), deep)
        }),
        stack_work(g.ctx, stack_view(t)) < stack_work(g.ctx, stack_view(s)),
{
    reveal(on_course);
    lemma_top_changed(g.ctx, s, t);
    let fs = stack_view(s);
    let gs = stack_view(t);
    let f = frame_view(s.last());
    let link = f.names[f.next];
    let node = file_node(g.ctx, link.base_record, link.name, counted);
    assert(gs =~= give(skip_one(fs), node));
    lemma_skip_work(g.ctx, fs, gs);
    assert forall|fuel: nat| fuel >= deep implies #[trigger] goal_tree(g, fuel) == resume(
        g.ctx,
        gs,
        counted.insert(link.base_record),
        fuel,
    ) by {
        lemma_resume_file(g.ctx, fs, counted, fuel);
    }
}

proof fn lemma_step_directory(
    g: Goal,
    s: Seq<Frame>,
    counted: Set<u64>,
    deep: nat,
    t: Seq<Frame>,
    child: Frame,
)
    requires
        on_course(g, s, counted, deep),
        top_changed(s, t),
        ({
            let f = frame_view(s.last());
            let link = f.names[f.next];
            &&& 0 <= f.next < f.names.len()
            &&& is_directory(g.ctx, link.base_record)
            &&& !records_of(stack_view(s)).contains(link.base_record)
            &&& frame_view(t.last()) == (FrameView { next: f.next + 1, ..f })
            &&& frame_view(child) == opened(g.ctx, link, f.depth + 1)
            &&& child.tint < 6
            &&& child.tint == child.depth@ % 6
        }),
    ensures
        on_course(
            g,
            t.push(child),
            counted,
            if deep < s.len() + 1 {
                s.len() + 1
            } else {
                deep
            },
        ),
        stack_work(g.ctx, stack_view(t.push(child))) < stack_work(g.ctx, stack_view(s)),
{
    reveal(on_course);
    lemma_top_changed(g.ctx, s, t);
    let c = g.ctx;
    let fs = stack_view(s);
    let u = t.push(child);
    let hs = stack_view(u);
    let f = frame_view(s.last());
    let link = f.names[f.next];
    assert(stack_view(t) =~= skip_one(fs));
    assert(hs =~= skip_one(fs).push(opened(c, link, f.depth + 1)));
    lemma_open_work(c, fs);
    let deeper = if deep < s.len() + 1 {
        s.len() + 1
    } else {
        deep
    };
    assert forall|fuel: nat| fuel < deeper implies #[trigger] goal_tree(g, fuel) is None by {
        if fuel >= deep {
            assert(fuel == s.len());
            assert(tree_of(c, link.base_record, link.name, f.depth + 1, counted, 0) is None);
            assert(kids_of(c, f.names, f.next, f.depth, f.built, counted, 0) is None);
            assert(resume(c, fs, counted, fuel) is None);
        }
    }
    assert forall|fuel: nat| fuel >= deeper implies #[trigger] goal_tree(g, fuel) == resume(
        c,
        hs,
        counted,
        fuel,
    ) by {
        lemma_resume_directory(c, fs, counted, fuel);
    }
    lemma_held(c, s);
    assert(chained(c, u)) by {
        let rs = records_of(hs);
        let old_rs = records_of(fs);
        assert(rs.drop_last() =~= old_rs);
        assert forall|i: int| 0 < i < rs.len() implies holds(c, rs[i - 1], #[trigger] rs[i]) by {
            if i < rs.len() - 1 {
                assert(old_rs[i] == rs[i]);
                assert(old_rs[i - 1] == rs[i - 1]);
            }
        }
    }
    assert(frames_ok(c, u)) by {
        assert forall|i: int| 0 <= i < u.len() implies {
            let f = #[trigger] u[i];
            &&& f.tint < 6
            &&& f.tint == f.depth@ % 6
            &&& frame_view(f).names == names_in(c, f.record)
        } by {
            if i < t.len() {
                assert(u[i] == t[i]);
            }
        }
    }
}

/// The directory that the top frame is at is held by the top directory.
proof fn lemma_held(ctx: ContextView, s: Seq<Frame>)
    requires
        s.len() > 0,
        frames_ok(ctx, s),
        ({
            let f = frame_view(s.last());
            &&& 0 <= f.next < f.names.len()
            &&& is_directory(ctx, f.names[f.next].base_record)
        }),
    ensures
        ({
            let f = frame_view(s.last());
            holds(ctx, s.last().record, f.names[f.next].base_record)
        }),
{
    let f = frame_view(s.last());
    assert(s[s.len() - 1] == s.last());
    let names = names_in(ctx, s.last().record);
    assert(names[f.next].base_record == f.names[f.next].base_record);
}

proof fn lemma_step_loop(
    g: Goal,
    s: Seq<Frame>,
    counted: Set<u64>,
    deep: nat,
    j: int,
)
    requires
        on_course(g, s, counted, deep),
        ({
            let f = frame_view(s.last());
            &&& 0 <= f.next < f.names.len()
            &&& is_directory(g.ctx, f.names[f.next].base_record)
            &&& 0 <= j < s.len()
            &&& s[j].record == f.names[f.next].base_record
        }),
    ensures
        forall|fuel: nat| #[trigger] goal_tree(g, fuel) is None,
{
    reveal(on_course);
    let rs = records_of(stack_view(s));
    lemma_held(g.ctx, s);
    assert(rs.last() == s.last().record);
    assert(rs[j] == s[j].record);
    assert forall|fuel: nat| #[trigger] goal_tree(g, fuel) is None by {
        law_directory_loop_has_no_tree(g.ctx, rs, j, g.name, g.depth, g.counted, fuel);
    }
}

proof fn lemma_step_close(
    g: Goal,
    s: Seq<Frame>,
    counted: Set<u64>,
    deep: nat,
    node: NodeView,
    t: Seq<Frame>,
)
    requires
        on_course(g, s, counted, deep),
        ({
            let f = frame_view(s.last());
            &&& f.next >= f.names.len()
            &&& totals_fit(f.built)
            &&& node == directory_node(g.ctx, f.record, f.name, f.depth, f.built)
        }),
        s.len() > 1,
        top_changed(s.drop_last(), t),
        ({
            let up = frame_view(s.drop_last().last());
            frame_view(t.last()) == (FrameView { built: up.built.push(node), ..up })
        }),
    ensures
        on_course(g, t, counted, deep),
        stack_work(g.ctx, stack_view(t)) < stack_work(g.ctx, stack_view(s)),
{
    reveal(on_course);
    let c = g.ctx;
    let r = s.drop_last();
    let fs = stack_view(s);
    let gs = stack_view(t);
    assert(stack_view(r) =~= fs.drop_last());
    assert(frames_ok(c, r)) by {
        assert forall|i: int| 0 <= i < r.len() implies {
            let f = #[trigger] r[i];
            &&& f.tint < 6
            &&& f.tint == f.depth@ % 6
            &&& frame_view(f).names == names_in(c, f.record)
        } by {
            assert(r[i] == s[i]);
        }
    }
    assert(chained(c, r)) by {
        let rs = records_of(stack_view(r));
        let all = records_of(fs);
        assert forall|i: int| 0 < i < rs.len() implies holds(c, rs[i - 1], #[trigger] rs[i]) by {
            assert(rs[i] == all[i]);
            assert(rs[i - 1] == all[i - 1]);
        }
    }
    lemma_top_changed(c, r, t);
    assert(gs =~= give(stack_view(r), node));
    lemma_give_work(c, stack_view(r), node);
    assert forall|fuel: nat| fuel >= deep implies #[trigger] goal_tree(g, fuel) == resume(
        c,
        gs,
        counted,
        fuel,
    ) by {
        assert(goal_tree(g, fuel) == resume(c, fs, counted, fuel));
    }
}

proof fn lemma_course_top(g: Goal, s: Seq<Frame>, counted: Set<u64>, deep: nat)
    requires
        on_course(g, s, counted, deep),
    ensures
        s.len() > 0,
        s.last().tint < 6,
        s.last().tint == s.last().depth@ % 6,
{
    reveal(on_course);
    assert(s[s.len() - 1].tint < 6);
}

proof fn lemma_step_overflow(g: Goal, s: Seq<Frame>, counted: Set<u64>, deep: nat)
    requires
        on_course(g, s, counted, deep),
        ({
            let f = frame_view(s.last());
            f.next >= f.names.len() && !totals_fit(f.built)
        }),
    ensures
        forall|fuel: nat| #[trigger] goal_tree(g, fuel) is None,
{
    reveal(on_course);
    let fs = stack_view(s);
    assert(fs.last() == frame_view(s.last()));
    assert forall|fuel: nat| #[trigger] goal_tree(g, fuel) is None by {
        if fuel >= deep {
            assert(resume(g.ctx, fs, counted, fuel) is None);
        }
    }
}

proof fn lemma_step_done(g: Goal, s: Seq<Frame>, counted: Set<u64>, deep: nat)
    requires
        on_course(g, s, counted, deep),
        s.len() == 1,
        ({
            let f = frame_view(s.last());
            f.next >= f.names.len() && totals_fit(f.built)
        }),
    ensures
        ({
            let f = frame_view(s.last());
            goal_tree(g, deep) == Some(
                (directory_node(g.ctx, f.record, f.name, f.depth, f.built), counted),
            )
        }),
{
    reveal(on_course);
    let fs = stack_view(s);
    assert(fs.last() == frame_view(s.last()));
    assert(goal_tree(g, deep) == resume(g.ctx, fs, counted, deep));
}

proof fn lemma_course_begins(g: Goal, s: Seq<Frame>)
    requires
        s.len() == 1,
        s[0].tint < 6,
        s[0].tint == s[0].depth@ % 6,
        frame_view(s[0]) == (FrameView {
            name: g.name,
            record: g.record,
            depth: g.depth,
            names: names_in(g.ctx, g.record),
            next: 0,
            built: Seq::empty(),
        }),
    ensures
        on_course(g, s, g.counted, 1),
{
    reveal(on_course);
    let fs = stack_view(s);
    assert(fs.last() == frame_view(s[0]));
    assert forall|fuel: nat| fuel >= 1 implies #[trigger] goal_tree(g, fuel) == resume(
        g.ctx,
        fs,
        g.counted,
        fuel,
    ) by {}
}

proof fn lemma_goal_none(g: Goal)
    requires
        forall|fuel: nat| #[trigger] goal_tree(g, fuel) is None,
    ensures
        forall|fuel: nat| #[trigger]
            tree_of(g.ctx, g.record, g.name, g.depth, g.counted, fuel) is None,
{
    assert forall|fuel: nat| #[trigger]
        tree_of(g.ctx, g.record, g.name, g.depth, g.counted, fuel) is None by {
        assert(goal_tree(g, fuel) is None);
    }
}

/// The tree of a record, where there is one: none where a directory stands somewhere below
/// itself, or where a total does not fit.
pub fn try_build_tree(
    ctx: &NtfsContext,
    record: u64,
    display_name: &str,
    depth: usize,
    size_counted: &mut HashSet<u64>,
) -> (r: Option<Node>)
    ensures
        if is_directory(ctx@, record) {
            match r {
                Some(n) => exists|fuel: nat| #[trigger]
                    tree_of(
                        ctx@,
                        record,
                        display_name@,
                        depth as nat,
                        old(size_counted)@,
                        fuel,
                    ) == Some((n@, final(size_counted)@)),
                None => forall|fuel: nat| #[trigger]
                    tree_of(
                        ctx@,
                        record,
                        display_name@,
                        depth as nat,
                        old(size_counted)@,
                        fuel,
                    ) is None,
            }
        } else {
            &&& r matches Some(n) && n@ == file_node(
                ctx@,
                record,
                display_name@,
                old(size_counted)@,
            )
            &&& final(size_counted)@ == old(size_counted)@.insert(record)
        },
{
    if ctx.meta(record).attributes & FILE_ATTRIBUTE_DIRECTORY == 0 {
        return Some(make_file(ctx, record, display_name.to_owned(), size_counted));
    }
    let ghost g = Goal {
        ctx: ctx@,
        record,
        name: display_name@,
        depth: depth as nat,
        counted: size_counted@,
    };
    let ghost mut deep: nat = 1;
    let mut stack: Vec<Frame> = Vec::new();
    stack.push(
        Frame {
            name: display_name.to_owned(),
            record,
            tint: depth % 6,
            names: ctx.names(record),
            next: 0,
            built: Vec::new(),
            depth: Ghost(depth as nat),
        },
    );
    proof {
        assert(frame_view(stack@[0]).built =~= Seq::<NodeView>::empty());
        lemma_course_begins(g, stack@);
    }
    loop
        invariant
            g.ctx == ctx@,
            g.record == record,
            g.name == display_name@,
            g.depth == depth as nat,
            g.counted == old(size_counted)@,
            is_directory(ctx@, record),
            on_course(g, stack@, size_counted@, deep),
        decreases stack_work(g.ctx, stack_view(stack@)),
    {
        let ghost s0 = stack@;
        proof {
            lemma_course_top(g, s0, size_counted@, deep);
        }
        let top: usize = stack.len() - 1;
        let ghost f0 = frame_view(s0[top as int]);
        let next: usize = stack[top].next;
        let link = match stack[top].names {
            Some(v) => if next < v.len() {
                Some(&v[next])
            } else {
                None
            },
            None => None,
        };
        match link {
            Some(link) => {
                let child: u64 = link.base_record;
                let name = link.name.clone();
                assert(f0.names[f0.next] == link@);
                if ctx.meta(child).attributes & FILE_ATTRIBUTE_DIRECTORY != 0 {
                    if let Some(j) = on_stack(&stack, child) {
                        proof {
                            lemma_step_loop(g, s0, size_counted@, deep, j as int);
                            lemma_goal_none(g);
                        }
                        return None;
                    }
                    stack[top].next = next + 1;
                    let ghost s1 = stack@;
                    let tint: usize = if stack[top].tint == 5 {
                        0
                    } else {
                        stack[top].tint + 1
                    };
                    let below: Ghost<nat> = Ghost(f0.depth + 1);
                    let frame = Frame {
                        name,
                        record: child,
                        tint,
                        names: ctx.names(child),
                        next: 0,
                        built: Vec::new(),
                        depth: below,
                    };
                    proof {
                        assert(frame_view(frame).built =~= Seq::<NodeView>::empty());
                        lemma_step_directory(g, s0, size_counted@, deep, s1, frame);
                        if deep < s0.len() + 1 {
                            deep = s0.len() + 1;
                        }
                    }
                    stack.push(frame);
                } else {
                    let ghost before = size_counted@;
                    let node = make_file(ctx, child, name, size_counted);
                    stack[top].next = next + 1;
                    stack[top].built.push(node);
                    proof {
                        assert(frame_view(stack@[top as int]).built =~= f0.built.push(node@));
                        lemma_step_file(g, s0, before, deep, stack@);
                    }
                }
            },
            None => {
                if !totals_in_range(stack[top].built.as_slice()) {
                    proof {
                        lemma_step_overflow(g, s0, size_counted@, deep);
                        lemma_goal_none(g);
                    }
                    return None;
                }
                if let Some(f) = stack.pop() {
                    let node = make_folder(ctx, f);
                    if stack.len() == 0 {
                        proof {
                            lemma_step_done(g, s0, size_counted@, deep);
                        }
                        return Some(node);
                    }
                    let up: usize = stack.len() - 1;
                    let ghost u0 = frame_view(stack@[up as int]);
                    stack[up].built.push(node);
                    proof {
                        assert(frame_view(stack@[up as int]).built =~= u0.built.push(node@));
                        lemma_step_close(g, s0, size_counted@, deep, node@, stack@);
                    }
                }
            },
        }
    }
}


proof fn lemma_tree_deeper(
    ctx: ContextView,
    record: u64,
    name: Seq<char>,
    depth: nat,
    counted: Set<u64>,
    fuel: nat,
)
    requires
        tree_of(ctx, record, name, depth, counted, fuel) is Some,
    ensures
        tree_of(ctx, record, name, depth, counted, fuel + 1) == tree_of(
            ctx,
            record,
            name,
            depth,
            counted,
            fuel,
        ),
    decreases fuel, 0int,
{
    lemma_kids_deeper(
        ctx,
        names_in(ctx, record),
        0,
        depth,
        Seq::empty(),
        counted,
        (fuel - 1) as nat,
    );
}

proof fn lemma_kids_deeper(
    ctx: ContextView,
    names: Seq<LinkView>,
    idx: int,
    depth: nat,
    built: Seq<NodeView>,
    counted: Set<u64>,
    fuel: nat,
)
    requires
        kids_of(ctx, names, idx, depth, built, counted, fuel) is Some,
    ensures
        kids_of(ctx, names, idx, depth, built, counted, fuel + 1) == kids_of(
            ctx,
            names,
            idx,
            depth,
            built,
            counted,
            fuel,
        ),
    decreases fuel, 1 + names.len() - idx,
{
    if 0 <= idx < names.len() {
        let record = names[idx].base_record;
        let name = names[idx].name;
        if is_directory(ctx, record) {
            lemma_tree_deeper(ctx, record, name, depth + 1, counted, fuel);
            let (n, c) = tree_of(ctx, record, name, depth + 1, counted, fuel)->0;
            lemma_kids_deeper(ctx, names, idx + 1, depth, built.push(n), c, fuel);
        } else {
            lemma_kids_deeper(
                ctx,
                names,
                idx + 1,
                depth,
                built.push(file_node(ctx, record, name, counted)),
                counted.insert(record),
                fuel,
            );
        }
    }
}

/// A directory has one tree at most: where there is one of some depth, a larger depth gives
/// the same.
pub proof fn law_tree_is_unique(
    ctx: ContextView,
    record: u64,
    name: Seq<char>,
    depth: nat,
    counted: Set<u64>,
    fuel: nat,
    more: nat,
)
    requires
        tree_of(ctx, record, name, depth, counted, fuel) is Some,
        fuel <= more,
    ensures
        tree_of(ctx, record, name, depth, counted, more) == tree_of(
            ctx,
            record,
            name,
            depth,
            counted,
            fuel,
        ),
    decreases more - fuel,
{
    if fuel < more {
        law_tree_is_unique(ctx, record, name, depth, counted, fuel, (more - 1) as nat);
        lemma_tree_deeper(ctx, record, name, depth, counted, (more - 1) as nat);
    }
}

/// The tree of a record that has one.
pub fn build_tree(
    ctx: &NtfsContext,
    record: u64,
    display_name: &str,
    depth: usize,
    size_counted: &mut HashSet<u64>,
) -> (n: Node)
    requires
        is_directory(ctx@, record) ==> exists|fuel: nat| #[trigger]
            tree_of(
                ctx@,
                record,
                display_name@,
                depth as nat,
                old(size_counted)@,
                fuel,
            ) is Some,
    ensures
        if is_directory(ctx@, record) {
            forall|fuel: nat| #[trigger]
                tree_of(
                    ctx@,
                    record,
                    display_name@,
                    depth as nat,
                    old(size_counted)@,
                    fuel,
                ) is Some ==> tree_of(
                    ctx@,
                    record,
                    display_name@,
                    depth as nat,
                    old(size_counted)@,
                    fuel,
                ) == Some((n@, final(size_counted)@))
        } else {
            &&& n@ == file_node(ctx@, record, display_name@, old(size_counted)@)
            &&& final(size_counted)@ == old(size_counted)@.insert(record)
        },
{
    match try_build_tree(ctx, record, display_name, depth, size_counted) {
        Some(n) => {
            proof {
                if is_directory(ctx@, record) {
                    let name = display_name@;
                    let d = depth as nat;
                    let counted = old(size_counted)@;
                    let f = choose|f: nat| #[trigger]
                        tree_of(ctx@, record, name, d, counted, f) == Some((n@, size_counted@));
                    assert forall|fuel: nat| #[trigger]
                        tree_of(ctx@, record, name, d, counted, fuel) is Some implies tree_of(
                        ctx@,
                        record,
                        name,
                        d,
                        counted,
                        fuel,
                    ) == Some((n@, size_counted@)) by {
                        if f <= fuel {
                            law_tree_is_unique(ctx@, record, name, d, counted, f, fuel);
                        } else {
                            law_tree_is_unique(ctx@, record, name, d, counted, fuel, f);
                        }
                    }
                }
            }
            n
        },
        None => Node::new_file(String::new(), 0, FILE_COLOR),
    }
}

/// The name of the root of a drive.
pub open spec fn drive_root(letter: char) -> Seq<char> {
    seq![letter, ':', '\\']
}

/// The tree of a whole volume, from its root directory on.
pub fn volume_tree(ctx: &NtfsContext, drive_letter: char) -> (r: Option<Node>)
    ensures
        if is_directory(ctx@, NTFS_ROOT_RECORD) {
            match r {
                Some(n) => exists|fuel: nat|
                    (#[trigger] tree_of(
                        ctx@,
                        NTFS_ROOT_RECORD,
                        drive_root(drive_letter),
                        0,
                        Set::empty(),
                        fuel,
                    )) matches Some(t) && t.0 == n@,
                None => forall|fuel: nat| #[trigger]
                    tree_of(
                        ctx@,
                        NTFS_ROOT_RECORD,
                        drive_root(drive_letter),
                        0,
                        Set::empty(),
                        fuel,
                    ) is None,
            }
        } else {
            r matches Some(n) && n@ == file_node(
                ctx@,
                NTFS_ROOT_RECORD,
                drive_root(drive_letter),
                Set::empty(),
            )
        },
{
    let mut name = String::new();
    name.push(drive_letter);
    name.push(':');
    name.push('\\');
    assert(name@ =~= drive_root(drive_letter));
    let mut counted: HashSet<u64> = HashSet::new();
    try_build_tree(ctx, NTFS_ROOT_RECORD, name.as_str(), 0, &mut counted)
}

/// A hard link counts for nothing on disk once the file has been counted, though its logical
/// size is shown in full.
pub proof fn law_hard_link_counts_once(
    ctx: ContextView,
    record: u64,
    first: Seq<char>,
    second: Seq<char>,
    counted: Set<u64>,
)
    ensures
        file_node(ctx, record, second, counted.insert(record)).physical_size == 0,
        file_node(ctx, record, second, counted.insert(record)).logical_size == file_node(
            ctx,
            record,
            first,
            counted,
        ).logical_size,
{
}

} // verus!
