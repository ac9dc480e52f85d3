//! What the columns of a row say, and what its menu offers.

use vstd::prelude::*;
use vstd::string::*;

use crate::export::{format_tag, tag_text};
use crate::file_ops::{is_empty, pair, triple};
use crate::format::{
    attributes_text, format_attributes, human_size, human_size_compact, size_text,
    size_text_compact,
};
use crate::fs_attrs::{
    FILE_ATTRIBUTE_HIDDEN, FILE_ATTRIBUTE_REPARSE_POINT, FILE_ATTRIBUTE_SYSTEM,
};
use crate::index_model::{shown_dir, EntryView};
use crate::model::{Node, NodeView, SortDir, SortKey, SortState};
use crate::search_index::NameIndex;
use crate::text::{decimal, owned, push_decimal};
use crate::tree_list::{copy_path, not_zero, step_path};
use crate::ui::{ActionView, TreeAction};

verus! {

/// A row below a partition, whatever it comes from.
pub struct RowInfo<'a> {
    pub name: &'a str,
    pub is_folder: bool,
    pub expanded: bool,
    pub logical_size: u64,
    pub physical_size: u64,
    pub modified_ft: u64,
    pub created_ft: u64,
    pub accessed_ft: u64,
    pub attributes: u32,
    pub reparse_tag: u32,
    pub is_reserved: bool,
    pub owner: &'a str,
    pub file_count: u64,
    pub folder_count: u64,
    pub depth: usize,
    /// The size of what it stands in.
    pub parent_logical: u64,
    /// The size of its partition, at least 1.
    pub disk_logical: u64,
    /// The folder it stands in, where the list has a column for that.
    pub dir_path: Option<&'a str>,
    /// Its entry, where it comes from an index.
    pub index_entry: Option<u32>,
}

/// What a [`RowInfo`] holds.
#[verifier::ext_equal]
pub struct InfoView {
    pub name: Seq<char>,
    pub is_folder: bool,
    pub expanded: bool,
    pub logical_size: u64,
    pub physical_size: u64,
    pub modified_ft: u64,
    pub created_ft: u64,
    pub accessed_ft: u64,
    pub attributes: u32,
    pub reparse_tag: u32,
    pub is_reserved: bool,
    pub owner: Seq<char>,
    pub file_count: u64,
    pub folder_count: u64,
    pub depth: usize,
    pub parent_logical: u64,
    pub disk_logical: u64,
    pub dir_path: Option<Seq<char>>,
    pub index_entry: Option<u32>,
}

impl<'a> View for RowInfo<'a> {
    type V = InfoView;

    open spec fn view(&self) -> InfoView {
        InfoView {
            name: self.name@,
            is_folder: self.is_folder,
            expanded: self.expanded,
            logical_size: self.logical_size,
            physical_size: self.physical_size,
            modified_ft: self.modified_ft,
            created_ft: self.created_ft,
            accessed_ft: self.accessed_ft,
            attributes: self.attributes,
            reparse_tag: self.reparse_tag,
            is_reserved: self.is_reserved,
            owner: self.owner@,
            file_count: self.file_count,
            folder_count: self.folder_count,
            depth: self.depth,
            parent_logical: self.parent_logical,
            disk_logical: self.disk_logical,
            dir_path: match self.dir_path {
                Some(d) => Some(d@),
                None => None,
            },
            index_entry: self.index_entry,
        }
    }
}

/// The row of a node of a tree.
pub open spec fn info_of_node(
    n: NodeView,
    depth: usize,
    parent_logical: u64,
    disk_logical: u64,
) -> InfoView {
    InfoView {
        name: n.name,
        is_folder: n.is_folder(),
        expanded: n.expanded,
        logical_size: n.logical_size,
        physical_size: n.physical_size,
        modified_ft: n.modified_ft,
        created_ft: n.created_ft,
        accessed_ft: n.accessed_ft,
        attributes: n.attributes,
        reparse_tag: n.reparse_tag,
        is_reserved: n.is_reserved,
        owner: n.owner,
        file_count: n.file_count,
        folder_count: n.folder_count,
        depth,
        parent_logical,
        disk_logical: not_zero(disk_logical),
        dir_path: None,
        index_entry: None,
    }
}

/// The row of an entry of an index.
pub open spec fn info_of_entry(e: EntryView, i: u32, disk_logical: u64) -> InfoView {
    InfoView {
        name: e.name,
        is_folder: !e.is_file,
        expanded: false,
        logical_size: e.logical_size,
        physical_size: e.physical_size,
        modified_ft: e.modified_ft,
        created_ft: e.created_ft,
        accessed_ft: e.accessed_ft,
        attributes: e.attributes,
        reparse_tag: e.reparse_tag,
        is_reserved: e.is_reserved,
        owner: e.owner,
        file_count: e.file_count as u64,
        folder_count: e.folder_count as u64,
        depth: 0,
        parent_logical: e.parent_logical,
        disk_logical: not_zero(disk_logical),
        dir_path: Some(shown_dir(e)),
        index_entry: Some(i),
    }
}

fn at_least_one(n: u64) -> (r: u64)
    ensures
        r == not_zero(n),
{
    if n == 0 {
        1
    } else {
        n
    }
}

/// The row of a node of a tree.
pub fn node_row<'a>(n: &'a Node, depth: usize, parent_logical: u64, disk_logical: u64) -> (r:
    RowInfo<'a>)
    ensures
        r@ == info_of_node(n@, depth, parent_logical, disk_logical),
{
    RowInfo {
        name: n.name.as_str(),
        is_folder: n.is_folder(),
        expanded: n.expanded,
        logical_size: n.logical_size,
        physical_size: n.physical_size,
        modified_ft: n.modified_ft,
        created_ft: n.created_ft,
        accessed_ft: n.accessed_ft,
        attributes: n.attributes,
        reparse_tag: n.reparse_tag,
        is_reserved: n.is_reserved,
        owner: n.owner.as_str(),
        file_count: n.file_count,
        folder_count: n.folder_count,
        depth,
        parent_logical,
        disk_logical: at_least_one(disk_logical),
        dir_path: None,
        index_entry: None,
    }
}

/// The row of an entry of an index, if there is such an entry under a root that is there.
pub fn entry_row<'a>(index: &'a NameIndex, i: u32) -> (r: Option<RowInfo<'a>>)
    requires
        index.wf(),
    ensures
        match r {
            Some(x) => {
                &&& i < index@.entries.len()
                &&& index@.entries[i as int].pi < index@.roots.len()
                &&& x@ == info_of_entry(
                    index@.entries[i as int],
                    i,
                    index@.roots[index@.entries[i as int].pi].logical_size,
                )
            },
            None => i >= index@.entries.len() || index@.entries[i as int].pi >= index@.roots.len(),
        },
{
    let k: usize = i as usize;
    if k >= index.len() {
        return None;
    }
    let e = index.entry(k);
    let pi: usize = e.pi as usize;
    if pi >= index.root_count() {
        return None;
    }
    Some(
        RowInfo {
            name: index.name_orig(k),
            is_folder: !e.is_file(),
            expanded: false,
            logical_size: e.logical_size,
            physical_size: e.physical_size,
            modified_ft: e.modified_ft,
            created_ft: e.created_ft,
            accessed_ft: e.accessed_ft,
            attributes: e.attributes,
            reparse_tag: e.reparse_tag,
            is_reserved: e.is_reserved(),
            owner: index.owner(k),
            file_count: e.file_count as u64,
            folder_count: e.folder_count as u64,
            depth: 0,
            parent_logical: e.parent_logical,
            disk_logical: at_least_one(index.root_logical(pi)),
            dir_path: Some(index.dir_path(k)),
            index_entry: Some(i),
        },
    )
}

impl<'a> RowInfo<'a> {
    /// Whether either of the attributes "hidden" and "system" is set.
    pub fn is_hidden_or_system(&self) -> (b: bool)
        ensures
            b == (self.attributes & (FILE_ATTRIBUTE_HIDDEN | FILE_ATTRIBUTE_SYSTEM) != 0),
    {
        self.attributes & (FILE_ATTRIBUTE_HIDDEN | FILE_ATTRIBUTE_SYSTEM) != 0
    }

    /// Whether the tag or the attribute says that this is a reparse point.
    pub fn is_reparse_point(&self) -> (b: bool)
        ensures
            b == (self.reparse_tag != 0 || self.attributes & FILE_ATTRIBUTE_REPARSE_POINT != 0),
    {
        self.reparse_tag != 0 || self.attributes & FILE_ATTRIBUTE_REPARSE_POINT != 0
    }

    /// The full path of a row that comes from an index.
    pub fn indexed_path(&self) -> (r: String)
        ensures
            r@ == step_path(
                match self@.dir_path {
                    Some(d) => d,
                    None => Seq::empty(),
                },
                self@.name,
            ),
    {
        match self.dir_path {
            Some(d) => {
                if is_empty(d) {
                    return owned(self.name);
                }
                let mut s = owned(d);
                s.push('\\');
                s.append(self.name);
                s
            },
            None => owned(self.name),
        }
    }
}

/// A text, or a dash where there is none.
pub open spec fn or_dash(s: Seq<char>) -> Seq<char> {
    if s.len() == 0 {
        "—"@
    } else {
        s
    }
}

/// A text, or a dash where there is none.
pub fn dash_if_empty(s: &str) -> (r: String)
    ensures
        r@ == or_dash(s@),
{
    if is_empty(s) {
        owned("—")
    } else {
        owned(s)
    }
}

/// A count, or a dash for a file.
pub open spec fn count_text(is_folder: bool, n: nat) -> Seq<char> {
    if is_folder {
        decimal(n)
    } else {
        "—"@
    }
}

fn count_cell(is_folder: bool, n: u64) -> (r: String)
    ensures
        r@ == count_text(is_folder, n as nat),
{
    if is_folder {
        let mut s = String::new();
        push_decimal(&mut s, n);
        assert(s@ =~= decimal(n as nat));
        s
    } else {
        owned("—")
    }
}

/// The three times of a row, as they are written.
pub struct RowTimes {
    pub modified: String,
    pub created: String,
    pub accessed: String,
}

/// The texts of the columns that are not bars: name, size, modified, size on disk, created,
/// accessed, items, files, folders, attributes, tag, reserved, owner and path.
pub open spec fn cells_of(i: InfoView, modified: Seq<char>, created: Seq<char>, accessed: Seq<char>) -> Seq<
    Seq<char>,
> {
    seq![
        (if i.is_folder {
            "📁 "@
        } else {
            "📄 "@
        }) + i.name,
        size_text(i.logical_size as nat),
        or_dash(modified),
        size_text(i.physical_size as nat),
        or_dash(created),
        or_dash(accessed),
        count_text(i.is_folder, (i.file_count + i.folder_count) as nat),
        count_text(i.is_folder, i.file_count as nat),
        count_text(i.is_folder, i.folder_count as nat),
        attributes_text(i.attributes),
        or_dash(tag_text(i.reparse_tag)),
        if i.is_reserved {
            "是"@
        } else {
            "—"@
        },
        or_dash(i.owner),
        match i.dir_path {
            Some(d) => d,
            None => Seq::empty(),
        },
    ]
}

/// The texts of the columns of a row that are not bars.
pub fn row_cells(i: &RowInfo<'_>, t: &RowTimes) -> (r: Vec<String>)
    requires
        i.is_folder ==> i.file_count + i.folder_count <= u64::MAX,
    ensures
        crate::file_ops::strings_view(r@) == cells_of(
            i@,
            t.modified@,
            t.created@,
            t.accessed@,
        ),
{
    let mut r: Vec<String> = Vec::new();
    r.push(
        pair(
            if i.is_folder {
                "📁 "
            } else {
                "📄 "
            },
            i.name,
        ),
    );
    r.push(human_size(i.logical_size));
    r.push(dash_if_empty(t.modified.as_str()));
    r.push(human_size(i.physical_size));
    r.push(dash_if_empty(t.created.as_str()));
    r.push(dash_if_empty(t.accessed.as_str()));
    let items: u64 = if i.is_folder {
        i.file_count + i.folder_count
    } else {
        0
    };
    r.push(count_cell(i.is_folder, items));
    r.push(count_cell(i.is_folder, i.file_count));
    r.push(count_cell(i.is_folder, i.folder_count));
    r.push(format_attributes(i.attributes));
    let tag = format_tag(i.reparse_tag);
    r.push(dash_if_empty(tag.as_str()));
    r.push(
        owned(
            if i.is_reserved {
                "是"
            } else {
                "—"
            },
        ),
    );
    r.push(dash_if_empty(i.owner));
    r.push(
        match i.dir_path {
            Some(d) => owned(d),
            None => String::new(),
        },
    );
    assert(crate::file_ops::strings_view(r@) =~= cells_of(
        i@,
        t.modified@,
        t.created@,
        t.accessed@,
    ));
    r
}

/// What is known of a volume.
pub struct DiskUsage {
    pub total_bytes: u64,
    pub used_bytes: u64,
    pub free_bytes: u64,
    pub file_system: String,
}

/// What a partition is measured against: its volume, or itself where that is not known.
pub fn disk_total(info: &Option<DiskUsage>, logical_size: u64) -> (r: u64)
    ensures
        r == match info {
            Some(i) => i.total_bytes,
            None => not_zero(logical_size),
        },
{
    match info {
        Some(i) => i.total_bytes,
        None => at_least_one(logical_size),
    }
}

/// The line that says how full a volume is.
pub fn usage_line(i: &DiskUsage) -> (r: String)
    ensures
        r@ == "总: "@ + size_text_compact(i.total_bytes as nat) + "  已用: "@ + size_text_compact(
            i.used_bytes as nat,
        ) + "  可用: "@ + size_text_compact(i.free_bytes as nat),
{
    let mut s = triple("总: ", human_size_compact(i.total_bytes).as_str(), "  已用: ");
    s.append(human_size_compact(i.used_bytes).as_str());
    s.append("  可用: ");
    s.append(human_size_compact(i.free_bytes).as_str());
    s
}

/// The line that says what a scan found.
pub fn scanned_line(logical: u64, physical: u64) -> (r: String)
    ensures
        r@ == "扫描: 逻辑="@ + size_text_compact(logical as nat) + "  物理="@
            + size_text_compact(physical as nat),
{
    let mut s = triple("扫描: 逻辑=", human_size_compact(logical).as_str(), "  物理=");
    s.append(human_size_compact(physical).as_str());
    s
}

/// What stands in the column "modified" of a partition: the file system, where it is known.
pub fn disk_kind(info: &Option<DiskUsage>, modified: &str) -> (r: String)
    ensures
        r@ == match info {
            Some(i) => if i.file_system@.len() > 0 {
                i.file_system@
            } else {
                modified@
            },
            None => modified@,
        },
{
    if let Some(i) = info {
        if !is_empty(i.file_system.as_str()) {
            return owned(i.file_system.as_str());
        }
    }
    owned(modified)
}

/// The heading of a column, with an arrow where the list is sorted by it.
pub fn header_text(label: &str, key: SortKey, sort: SortState) -> (r: String)
    ensures
        r@ == label@ + if sort.key == key {
            if sort.dir == SortDir::Asc {
                " ▲"@
            } else {
                " ▼"@
            }
        } else {
            Seq::empty()
        },
{
    if sort.key == key {
        if sort.dir == SortDir::Asc {
            pair(label, " ▲")
        } else {
            pair(label, " ▼")
        }
    } else {
        let s = owned(label);
        assert(s@ =~= label@ + Seq::<char>::empty());
        s
    }
}

/// What a column is called and what a click on it sorts by. Both shares of a size go by size.
pub fn header_column(i: usize) -> (r: (&'static str, SortKey))
    requires
        i < 16,
    ensures
        (r.0@, r.1) == column_of(i as int),
{
    if i == 0 {
        ("名称", SortKey::Name)
    } else if i == 1 {
        ("父占比", SortKey::Size)
    } else if i == 2 {
        ("总占比", SortKey::Size)
    } else if i == 3 {
        ("逻辑大小", SortKey::Size)
    } else if i == 4 {
        ("修改时间", SortKey::Modified)
    } else if i == 5 {
        ("物理大小", SortKey::Physical)
    } else if i == 6 {
        ("创建时间", SortKey::Created)
    } else if i == 7 {
        ("访问时间", SortKey::Accessed)
    } else if i == 8 {
        ("项目", SortKey::Items)
    } else if i == 9 {
        ("文件", SortKey::Files)
    } else if i == 10 {
        ("文件夹", SortKey::Folders)
    } else if i == 11 {
        ("属性", SortKey::Attributes)
    } else if i == 12 {
        ("重解析点", SortKey::Reparse)
    } else if i == 13 {
        ("保留", SortKey::Reserved)
    } else if i == 14 {
        ("所有者", SortKey::Owner)
    } else {
        ("路径", SortKey::Path)
    }
}

/// What a column is called and what a click on it sorts by.
pub open spec fn column_of(i: int) -> (Seq<char>, SortKey) {
    if i == 0 {
        ("名称"@, SortKey::Name)
    } else if i == 1 {
        ("父占比"@, SortKey::Size)
    } else if i == 2 {
        ("总占比"@, SortKey::Size)
    } else if i == 3 {
        ("逻辑大小"@, SortKey::Size)
    } else if i == 4 {
        ("修改时间"@, SortKey::Modified)
    } else if i == 5 {
        ("物理大小"@, SortKey::Physical)
    } else if i == 6 {
        ("创建时间"@, SortKey::Created)
    } else if i == 7 {
        ("访问时间"@, SortKey::Accessed)
    } else if i == 8 {
        ("项目"@, SortKey::Items)
    } else if i == 9 {
        ("文件"@, SortKey::Files)
    } else if i == 10 {
        ("文件夹"@, SortKey::Folders)
    } else if i == 11 {
        ("属性"@, SortKey::Attributes)
    } else if i == 12 {
        ("重解析点"@, SortKey::Reparse)
    } else if i == 13 {
        ("保留"@, SortKey::Reserved)
    } else if i == 14 {
        ("所有者"@, SortKey::Owner)
    } else {
        ("路径"@, SortKey::Path)
    }
}

/// Whether a column keeps its width: those for details are shown with `show_all`, the path only
/// in a list of search results.
pub fn column_shown(i: usize, show_all: bool, searching: bool) -> (r: bool)
    ensures
        r == if i < 6 {
            true
        } else if i < 15 {
            show_all
        } else {
            searching
        },
{
    if i < 6 {
        true
    } else if i < 15 {
        show_all
    } else {
        searching
    }
}

/// What is shown when the pointer rests on a row: the path in a list of search results, and a
/// hint for a link.
pub open spec fn hover_of(searching: bool, is_reparse: bool, path: Seq<char>) -> Option<
    Seq<char>,
> {
    let hint =
        "这是符号链接 / junction / 挂载点，指向磁盘上别的位置——本身不占用这里显示的实际空间"@;
    if searching && is_reparse {
        Some(path.push('\n') + hint)
    } else if searching {
        Some(path)
    } else if is_reparse {
        Some(hint)
    } else {
        None
    }
}

/// What is shown when the pointer rests on a row.
pub fn hover_text(searching: bool, is_reparse: bool, path: &str) -> (r: Option<String>)
    ensures
        crate::model::text_option(r) == hover_of(searching, is_reparse, path@),
{
    let hint =
        "这是符号链接 / junction / 挂载点，指向磁盘上别的位置——本身不占用这里显示的实际空间";
    if searching && is_reparse {
        let mut s = owned(path);
        s.push('\n');
        s.append(hint);
        Some(s)
    } else if searching {
        Some(owned(path))
    } else if is_reparse {
        Some(owned(hint))
    } else {
        None
    }
}

/// The entries of the menu of a file or folder that the program has to act on.
#[derive(Clone, Copy, Debug, PartialEq, Eq, Structural)]
pub enum MenuItem {
    CheckLock,
    CreateSymlink,
    Delete,
}

/// What an entry of the menu of a row asks for.
pub open spec fn menu_outcome(
    item: MenuItem,
    is_folder: bool,
    name: Seq<char>,
    full_path: Seq<char>,
    abs_path: Seq<usize>,
    index_entry: Option<u32>,
) -> ActionView {
    match item {
        MenuItem::CheckLock => ActionView::RequestCheckLock {
            abs_path,
            name,
            full_path,
            is_folder,
        },
        MenuItem::CreateSymlink => ActionView::RequestCreateSymlink {
            abs_path,
            name,
            full_path,
            is_folder,
        },
        MenuItem::Delete => ActionView::RequestDelete {
            abs_path,
            name,
            full_path,
            is_folder,
            index_entry,
        },
    }
}

/// What an entry of the menu of a row asks for.
pub fn menu_action(
    item: MenuItem,
    is_folder: bool,
    name: &str,
    full_path: &str,
    abs_path: &Vec<usize>,
    index_entry: Option<u32>,
) -> (r: TreeAction)
    ensures
        r@ == menu_outcome(item, is_folder, name@, full_path@, abs_path@, index_entry),
{
    let abs_path = copy_path(abs_path);
    let name = owned(name);
    let full_path = owned(full_path);
    match item {
        MenuItem::CheckLock => TreeAction::RequestCheckLock {
            abs_path,
            name,
            full_path,
            is_folder,
        },
        MenuItem::CreateSymlink => TreeAction::RequestCreateSymlink {
            abs_path,
            name,
            full_path,
            is_folder,
        },
        MenuItem::Delete => TreeAction::RequestDelete {
            abs_path,
            name,
            full_path,
            is_folder,
            index_entry,
        },
    }
}

/// Whether an entry of the menu can be chosen: a link is not migrated again.
pub fn menu_enabled(item: MenuItem, is_reparse: bool) -> (r: bool)
    ensures
        r == !(item == MenuItem::CreateSymlink && is_reparse),
{
    !(item == MenuItem::CreateSymlink && is_reparse)
}

/// What Explorer is started with; nothing for an empty path. A file is selected in its folder.
pub open spec fn explorer_args(path: Seq<char>, select: bool) -> Option<Seq<char>> {
    if path.len() == 0 {
        None
    } else if select {
        Some("/select,\""@ + path + "\""@)
    } else {
        Some(path)
    }
}

/// What Explorer is started with; nothing for an empty path.
pub fn explorer_argument(path: &str, select: bool) -> (r: Option<String>)
    ensures
        crate::model::text_option(r) == explorer_args(path@, select),
{
    if is_empty(path) {
        None
    } else if select {
        Some(triple("/select,\"", path, "\""))
    } else {
        Some(owned(path))
    }
}

/// What a list of rows was made from.
#[derive(Clone, Copy, Debug, PartialEq, Eq, Structural)]
pub struct CacheKey {
    pub sort: SortState,
    /// Counts every change of what is expanded.
    pub expand_version: u64,
    pub show_all: bool,
    pub partitions_len: usize,
    /// Tells one list of partitions from another.
    pub partitions_id: usize,
}

/// Whether the rows have to be made anew.
pub fn is_stale(made_from: Option<CacheKey>, now: CacheKey) -> (r: bool)
    ensures
        r == (made_from != Some(now)),
{
    match made_from {
        Some(k) => k != now,
        None => true,
    }
}

} // verus!
