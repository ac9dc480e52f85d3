//! Walking a directory tree: what to make of each entry, and how to scan.

use std::collections::hash_map::RandomState;

use vstd::prelude::*;
use vstd::string::*;

use crate::bytes::{le32, read32};
use crate::dir_enum::{DirEntryView, RawDirEntry};
use crate::format::FILETIME_UNIX_OFFSET_SECS;
use crate::fs_attrs::FILE_ATTRIBUTE_REPARSE_POINT;
use crate::model::{file_view, folder_view, forest_view, Node, NodeView};
use crate::text::{chars_of, owned};
use crate::theme::{folder_color, FILE_COLOR, FOLDER_PALETTE};

verus! {

/// A set of the crate `dashmap`.
#[verifier::external_type_specification]
#[verifier::external_body]
#[verifier::reject_recursive_types(K)]
#[verifier::reject_recursive_types(S)]
pub struct ExDashSet<K, S>(dashmap::DashSet<K, S>);

/// The numbers in a `DashSet`.
pub uninterp spec fn dash_contents(s: dashmap::DashSet<u64, RandomState>) -> Set<u64>;

/// `DashSet::new`: an empty set.
#[verifier::external_body]
pub(crate) fn new_id_set() -> (s: dashmap::DashSet<u64, RandomState>)
    ensures
        dash_contents(s) == Set::<u64>::empty(),
{
    dashmap::DashSet::new()
}

/// `DashSet::insert`: puts a number in and tells whether it is new. The set is borrowed
/// mutably, so that no other thread changes it meanwhile.
#[verifier::external_body]
fn insert_id(s: &mut dashmap::DashSet<u64, RandomState>, id: u64) -> (new: bool)
    ensures
        new == !dash_contents(*old(s)).contains(id),
        dash_contents(*final(s)) == dash_contents(*old(s)).insert(id),
{
    s.insert(id)
}

/// Whether a character is an ASCII letter.
pub open spec fn is_ascii_letter(c: char) -> bool {
    'a' <= c <= 'z' || 'A' <= c <= 'Z'
}

/// An ASCII letter in upper case.
pub open spec fn upper_letter(c: char) -> char {
    if 'a' <= c <= 'z' {
        (c as u8 - 0x20) as char
    } else {
        c
    }
}

/// The drive that a path starts with.
pub open spec fn drive_letter(path: Seq<char>) -> Option<char> {
    if path.len() > 0 && is_ascii_letter(path[0]) {
        Some(upper_letter(path[0]))
    } else {
        None
    }
}

fn to_drive(c: char) -> (r: Option<char>)
    ensures
        r == if is_ascii_letter(c) {
            Some(upper_letter(c))
        } else {
            None
        },
{
    if 'a' <= c && c <= 'z' {
        Some((c as u8 - 0x20u8) as char)
    } else if 'A' <= c && c <= 'Z' {
        Some(c)
    } else {
        None
    }
}

/// The drive that a path starts with, in upper case.
pub fn drive_letter_of(path: &str) -> (r: Option<char>)
    ensures
        r == drive_letter(path@),
{
    let v = chars_of(path);
    if v.len() == 0 {
        return None;
    }
    to_drive(v[0])
}

/// The drive whose root a path is: a letter, a colon and a slash of either kind.
pub open spec fn drive_root(path: Seq<char>) -> Option<char> {
    if path.len() == 3 && path[1] == ':' && (path[2] == '\\' || path[2] == '/') {
        drive_letter(path)
    } else {
        None
    }
}

/// The drive whose root a path is: a letter, a colon and a slash of either kind.
pub fn as_drive_root(path: &str) -> (r: Option<char>)
    ensures
        r == drive_root(path@),
{
    let v = chars_of(path);
    if v.len() == 3 && v[1] == ':' && (v[2] == '\\' || v[2] == '/') {
        return to_drive(v[0]);
    }
    None
}

/// How to scan a path.
#[derive(Clone, Copy, Debug, PartialEq, Eq, Structural)]
pub enum ScanPlan {
    /// Read the master file table of a drive, and walk if that fails.
    Table(char),
    /// Walk the directories.
    Walk,
}

/// The master file table is read for the root of a drive, with the rights of an administrator;
/// everything else is walked.
pub fn plan_scan(path: &str, elevated: bool) -> (r: ScanPlan)
    ensures
        r == match drive_root(path@) {
            Some(c) if elevated => ScanPlan::Table(c),
            _ => ScanPlan::Walk,
        },
{
    match as_drive_root(path) {
        Some(c) => if elevated {
            ScanPlan::Table(c)
        } else {
            ScanPlan::Walk
        },
        None => ScanPlan::Walk,
    }
}

/// What the user is told when a scan fails.
pub fn scan_failed(reason: &str) -> (r: String)
    ensures
        r@ == "扫描失败: "@ + reason@,
{
    let mut s = owned("扫描失败: ");
    s.append(reason);
    s
}

/// What the user is told when the scan breaks off.
pub fn scan_broke_off(reason: &str) -> (r: String)
    ensures
        r@ == "扫描过程中发生内部错误（已记录日志）: "@ + reason@,
{
    let mut s = owned("扫描过程中发生内部错误（已记录日志）: ");
    s.append(reason);
    s
}

/// What the user is told when the scan cannot start.
pub fn scan_not_started(reason: &str) -> (r: String)
    ensures
        r@ == "无法启动扫描线程: "@ + reason@,
{
    let mut s = owned("无法启动扫描线程: ");
    s.append(reason);
    s
}

/// A time after 1970 in 100 ns since 1601, if it fits.
pub open spec fn filetime_since_epoch(secs: int, nanos: int) -> int {
    (secs + FILETIME_UNIX_OFFSET_SECS) * 10_000_000 + nanos / 100
}

/// A time in 100 ns since 1601; 0 where it is not known or before 1970.
pub fn system_time_to_filetime(since_epoch: Option<(u64, u32)>) -> (r: u64)
    requires
        since_epoch matches Some((secs, nanos)) ==> filetime_since_epoch(secs as int, nanos as int)
            <= u64::MAX,
    ensures
        r == match since_epoch {
            Some((secs, nanos)) => filetime_since_epoch(secs as int, nanos as int),
            None => 0,
        },
{
    match since_epoch {
        Some((secs, nanos)) => (secs + FILETIME_UNIX_OFFSET_SECS) * 10_000_000 + (nanos
            / 100) as u64,
        None => 0,
    }
}

/// The reparse tag in what the system says of a reparse point; 0 where it says nothing.
pub fn reparse_tag_of(ok: bool, answer: &[u8]) -> (r: u32)
    ensures
        r == if !ok || answer@.len() < 4 {
            0
        } else {
            le32(answer@, 0)
        },
{
    if !ok || answer.len() < 4 {
        return 0;
    }
    read32(answer, 0)
}

/// The attributes "compressed" and "sparse".
pub const COMPRESSED_OR_SPARSE: u32 = 0xA00;

/// The smallest multiple of a cluster that holds a size.
pub open spec fn in_clusters(size: int, cluster: int) -> int {
    (size + cluster - 1) / cluster * cluster
}

/// What a file takes on disk: what the system says for a compressed or sparse file, and else
/// whole clusters.
pub fn physical_size(logical: u64, attrs: u32, compressed: Option<u64>, cluster: u64) -> (r: u64)
    requires
        attrs & COMPRESSED_OR_SPARSE == 0 || compressed is None ==> cluster > 0 && in_clusters(
            logical as int,
            cluster as int,
        ) <= u64::MAX,
    ensures
        r == if attrs & COMPRESSED_OR_SPARSE != 0 && compressed is Some {
            compressed->0 as int
        } else {
            in_clusters(logical as int, cluster as int)
        },
{
    if attrs & COMPRESSED_OR_SPARSE != 0 {
        if let Some(n) = compressed {
            return n;
        }
    }
    if logical == 0 {
        proof {
            let c = cluster as int;
            assert((c - 1) / c == 0) by (nonlinear_arith)
                requires
                    c > 0,
            ;
            assert(in_clusters(0, c) == 0 * c);
        }
        return 0;
    }
    let whole: u64 = (logical - 1) / cluster;
    proof {
        let c = cluster as int;
        let l = logical as int;
        vstd::arithmetic::div_mod::lemma_div_plus_one(l - 1, c);
        assert((l + c - 1) / c == whole + 1);
        assert(whole <= l - 1) by (nonlinear_arith)
            requires
                whole == (l - 1) / c,
                c > 0,
                l >= 1,
        ;
        assert(in_clusters(l, c) == (whole + 1) * c);
    }
    (whole + 1) * cluster
}

/// Whole clusters hold a size, and one less would not.
pub proof fn law_clusters_hold_the_size(size: int, cluster: int)
    requires
        size >= 0,
        cluster > 0,
    ensures
        in_clusters(size, cluster) % cluster == 0,
        size <= in_clusters(size, cluster) < size + cluster,
{
    let total = size + cluster - 1;
    let n = total / cluster;
    vstd::arithmetic::div_mod::lemma_fundamental_div_mod(total, cluster);
    assert(n * cluster == cluster * n) by (nonlinear_arith);
    vstd::arithmetic::div_mod::lemma_mod_multiples_basic(n, cluster);
}

/// What the system says that a compressed file takes; nothing where it reports an error.
pub fn compressed_size(low: u32, high: u32, last_error: u32) -> (r: Option<u64>)
    ensures
        r == if low != 0xFFFF_FFFF || last_error == 0 {
            Some((high * 0x1_0000_0000 + low) as u64)
        } else {
            None
        },
{
    if low != 0xFFFF_FFFF || last_error == 0 {
        Some(high as u64 * 0x1_0000_0000 + low as u64)
    } else {
        None
    }
}

/// The size of a cluster where the system does not say.
pub const DEFAULT_CLUSTER: u64 = 4096;

/// The size of a cluster, from what the system says of a drive.
pub fn cluster_size(ok: bool, sectors_per_cluster: u32, bytes_per_sector: u32) -> (r: u64)
    ensures
        r == if !ok || sectors_per_cluster == 0 || bytes_per_sector == 0 {
            DEFAULT_CLUSTER as int
        } else {
            sectors_per_cluster * bytes_per_sector
        },
        r > 0,
{
    if !ok || sectors_per_cluster == 0 || bytes_per_sector == 0 {
        return DEFAULT_CLUSTER;
    }
    proof {
        assert(0 < sectors_per_cluster * bytes_per_sector <= u64::MAX) by (nonlinear_arith)
            requires
                0 < sectors_per_cluster <= u32::MAX,
                0 < bytes_per_sector <= u32::MAX,
        ;
    }
    sectors_per_cluster as u64 * bytes_per_sector as u64
}

/// An entry of a directory, with its reparse tag where it is a reparse point.
pub struct DirItem {
    pub entry: RawDirEntry,
    pub tag: u32,
}

/// What a [`DirItem`] holds.
pub type ItemView = (DirEntryView, u32);

/// What a list of items holds.
pub open spec fn items_view(v: Seq<DirItem>) -> Seq<ItemView> {
    Seq::new(v.len(), |i: int| (v[i].entry@, v[i].tag))
}

/// Whether the tag of an entry is wanted.
pub open spec fn is_reparse(e: DirEntryView) -> bool {
    e.attrs & FILE_ATTRIBUTE_REPARSE_POINT != 0
}

/// Whether the tag of an entry is wanted.
pub fn needs_tag(e: &RawDirEntry) -> (r: bool)
    ensures
        r == is_reparse(e@),
{
    e.attrs & FILE_ATTRIBUTE_REPARSE_POINT != 0
}

/// Whether an entry is a directory to go into.
pub open spec fn is_subdir(e: DirEntryView) -> bool {
    e.is_dir && !is_reparse(e)
}

/// What a file takes on disk when files with the given numbers were counted already.
pub open spec fn counted_physical(e: DirEntryView, seen: Set<u64>) -> u64 {
    if e.file_id != 0 && seen.contains(e.file_id) {
        0
    } else {
        e.physical
    }
}

/// The numbers of counted files after an entry.
pub open spec fn seen_after(e: DirEntryView, seen: Set<u64>) -> Set<u64> {
    if !e.is_dir && e.file_id != 0 {
        seen.insert(e.file_id)
    } else {
        seen
    }
}

/// The colour of folders at a depth.
pub open spec fn depth_color(depth: int) -> crate::theme::Color32 {
    FOLDER_PALETTE@[depth % 6]
}

/// The node of an entry that is not gone into: a file, or a directory that is a link.
pub open spec fn leaf_of(it: ItemView, depth: int, seen: Set<u64>) -> NodeView {
    let e = it.0;
    if e.is_dir {
        folder_view(
            e.name,
            depth_color(depth + 1),
            Seq::empty(),
            e.modified_ft,
            e.created_ft,
            e.accessed_ft,
            e.attrs,
            it.1,
            false,
            Seq::empty(),
        )
    } else {
        file_view(
            e.name,
            e.logical,
            counted_physical(e, seen),
            FILE_COLOR,
            e.modified_ft,
            e.created_ft,
            e.accessed_ft,
            e.attrs,
            if is_reparse(e) {
                it.1
            } else {
                0
            },
            false,
            Seq::empty(),
        )
    }
}

/// The numbers of counted files after a list of entries.
pub open spec fn seen_after_all(items: Seq<ItemView>, seen: Set<u64>) -> Set<u64>
    decreases items.len(),
{
    if items.len() == 0 {
        seen
    } else {
        seen_after(items.last().0, seen_after_all(items.drop_last(), seen))
    }
}

/// The nodes of the entries that are not gone into.
pub open spec fn leaves_of(items: Seq<ItemView>, depth: int, seen: Set<u64>) -> Seq<NodeView>
    decreases items.len(),
{
    if items.len() == 0 {
        Seq::empty()
    } else {
        let rest = leaves_of(items.drop_last(), depth, seen);
        if is_subdir(items.last().0) {
            rest
        } else {
            rest.push(
                leaf_of(items.last(), depth, seen_after_all(items.drop_last(), seen)),
            )
        }
    }
}

/// The entries that are gone into.
pub open spec fn subdirs_of(items: Seq<ItemView>) -> Seq<DirEntryView>
    decreases items.len(),
{
    if items.len() == 0 {
        Seq::empty()
    } else {
        let rest = subdirs_of(items.drop_last());
        if is_subdir(items.last().0) {
            rest.push(items.last().0)
        } else {
            rest
        }
    }
}

/// What the entries of a directory come to.
pub struct Sorted {
    pub leaves: Vec<Node>,
    pub subdirs: Vec<RawDirEntry>,
}

fn leaf_node(it: DirItem, depth: usize, physical: u64) -> (n: Node)
    requires
        depth < usize::MAX,
    ensures
        forall|seen: Set<u64>| physical == counted_physical(it.entry@, seen) || it.entry.is_dir
            ==> n@ == #[trigger] leaf_of((it.entry@, it.tag), depth as int, seen),
{
    let e = it.entry;
    if e.is_dir {
        let none: Vec<Node> = Vec::new();
        assert(forest_view(none@) =~= Seq::<NodeView>::empty());
        Node::new_folder_with_meta(
            e.name,
            folder_color(depth + 1),
            none,
            e.modified_ft,
            e.created_ft,
            e.accessed_ft,
            e.attrs,
            it.tag,
            false,
            String::new(),
        )
    } else {
        let tag: u32 = if e.attrs & FILE_ATTRIBUTE_REPARSE_POINT != 0 {
            it.tag
        } else {
            0
        };
        Node::new_file_with_meta(
            e.name,
            e.logical,
            physical,
            FILE_COLOR,
            e.modified_ft,
            e.created_ft,
            e.accessed_ft,
            e.attrs,
            tag,
            false,
            String::new(),
        )
    }
}

fn reversed(v: Vec<DirItem>) -> (r: Vec<DirItem>)
    ensures
        items_view(r@) == items_view(v@).reverse(),
{
    let ghost all = v@;
    let mut v = v;
    let mut r: Vec<DirItem> = Vec::new();
    while v.len() > 0
        invariant
            r@.len() + v@.len() == all.len(),
            forall|k: int| 0 <= k < v@.len() ==> #[trigger] v@[k] == all[k],
            forall|k: int| 0 <= k < r@.len() ==> #[trigger] r@[k] == all[all.len() - 1 - k],
        decreases v@.len(),
    {
        if let Some(x) = v.pop() {
            r.push(x);
        }
    }
    assert(items_view(r@) =~= items_view(all).reverse());
    r
}

/// Sorts the entries of a directory: files and links become nodes, directories are to be gone
/// into. Of files with the same number only the first takes space.
pub fn sort_items(
    items: Vec<DirItem>,
    depth: usize,
    seen: &mut dashmap::DashSet<u64, RandomState>,
) -> (r: Sorted)
    requires
        depth < usize::MAX,
    ensures
        forest_view(r.leaves@) == leaves_of(
            items_view(items@),
            depth as int,
            dash_contents(*old(seen)),
        ),
        crate::dir_enum::dir_entries_view(r.subdirs@) == subdirs_of(items_view(items@)),
        dash_contents(*final(seen)) == seen_after_all(
            items_view(items@),
            dash_contents(*old(seen)),
        ),
{
    let ghost iv = items_view(items@);
    let ghost start = dash_contents(*seen);
    let mut rest = reversed(items);
    proof {
        assert(items_view(rest@).len() == iv.len());
        assert forall|j: int| 0 <= j < rest@.len() implies ((#[trigger] rest@[j]).entry@, rest@[j].tag)
            == iv[iv.len() - 1 - j] by {
            assert(items_view(rest@)[j] == iv.reverse()[j]);
        }
    }
    let mut leaves: Vec<Node> = Vec::new();
    let mut subdirs: Vec<RawDirEntry> = Vec::new();
    let ghost mut k: int = 0;
    assert(forest_view(leaves@) =~= leaves_of(iv.take(0), depth as int, start));
    assert(crate::dir_enum::dir_entries_view(subdirs@) =~= subdirs_of(iv.take(0)));
    while rest.len() > 0
        invariant
            depth < usize::MAX,
            0 <= k <= iv.len(),
            k + rest@.len() == iv.len(),
            forall|j: int|
                0 <= j < rest@.len() ==> ((#[trigger] rest@[j]).entry@, rest@[j].tag) == iv[iv.len()
                    - 1 - j],
            forest_view(leaves@) == leaves_of(iv.take(k), depth as int, start),
            crate::dir_enum::dir_entries_view(subdirs@) == subdirs_of(iv.take(k)),
            dash_contents(*seen) == seen_after_all(iv.take(k), start),
        decreases rest@.len(),
    {
        let ghost so_far = dash_contents(*seen);
        match rest.pop() {
            Some(it) => {
                proof {
                    assert((it.entry@, it.tag) == iv[k]);
                    assert(iv.take(k + 1).drop_last() =~= iv.take(k));
                    assert(iv.take(k + 1).last() == iv[k]);
                }
                if it.entry.is_dir && it.entry.attrs & FILE_ATTRIBUTE_REPARSE_POINT == 0 {
                    let ghost before = subdirs@;
                    let e = it.entry;
                    subdirs.push(e);
                    assert(crate::dir_enum::dir_entries_view(subdirs@)
                        =~= crate::dir_enum::dir_entries_view(before).push(e@));
                } else {
                    let mut physical: u64 = it.entry.physical;
                    if !it.entry.is_dir && it.entry.file_id != 0 {
                        let new = insert_id(seen, it.entry.file_id);
                        if !new {
                            physical = 0;
                        }
                    }
                    assert(physical == counted_physical(it.entry@, so_far) || it.entry.is_dir);
                    let ghost before = leaves@;
                    let n = leaf_node(it, depth, physical);
                    leaves.push(n);
                    assert(n@ == leaf_of(iv[k], depth as int, so_far));
                    assert(forest_view(leaves@) =~= forest_view(before).push(n@));
                }
                proof {
                    k = k + 1;
                }
            },
            None => {},
        }
    }
    assert(iv.take(k) =~= iv);
    Sorted { leaves, subdirs }
}

proof fn lemma_seen_grows(items: Seq<ItemView>, k: int, seen: Set<u64>, id: u64)
    requires
        0 <= k <= items.len(),
        seen_after_all(items.take(k), seen).contains(id),
    ensures
        seen_after_all(items, seen).contains(id),
    decreases items.len() - k,
{
    if k < items.len() {
        assert(items.take(k + 1).drop_last() =~= items.take(k));
        lemma_seen_grows(items, k + 1, seen, id);
    } else {
        assert(items.take(k) =~= items);
    }
}

/// Of two entries for the same file the later one takes no space, wherever they stand.
pub proof fn law_file_takes_space_once(items: Seq<ItemView>, a: int, b: int, depth: int, seen: Set<
    u64,
>)
    requires
        0 <= a < b < items.len(),
        !items[a].0.is_dir,
        !items[b].0.is_dir,
        items[a].0.file_id != 0,
        items[a].0.file_id == items[b].0.file_id,
    ensures
        leaf_of(items[b], depth, seen_after_all(items.take(b), seen)).physical_size == 0,
{
    let id = items[a].0.file_id;
    let before = items.take(b);
    assert(before.take(a + 1) =~= items.take(a + 1));
    assert(items.take(a + 1).drop_last() =~= items.take(a));
    assert(items.take(a + 1).last() == items[a]);
    assert(seen_after_all(before.take(a + 1), seen).contains(id));
    lemma_seen_grows(before, a + 1, seen, id);
}

} // verus!
