//! The walk over a folder that is to be moved: looking for links in it, copying it, and counting
//! what it holds. Folders go by numbers, in the order in which they were come upon.

use vstd::prelude::*;

use crate::file_ops::strings_view;
use crate::fs_attrs::FILE_ATTRIBUTE_REPARSE_POINT;
use crate::migrate::{
    entry_use, join_relative, offender_path, relative_path, used_as, EntryUse,
};

verus! {

/// Where a walk is.
pub struct FolderWalk {
    rels: Vec<String>,
    todo: Vec<usize>,
    here: usize,
}

/// What a [`FolderWalk`] knows.
#[verifier::ext_equal]
pub struct WalkView {
    /// The path of every folder that was come upon, relative to the first.
    pub rels: Seq<Seq<char>>,
    /// The folders that are still to be read; the last one comes next.
    pub todo: Seq<usize>,
    /// The folder that is being read.
    pub here: usize,
}

impl View for FolderWalk {
    type V = WalkView;

    closed spec fn view(&self) -> WalkView {
        WalkView { rels: strings_view(self.rels@), todo: self.todo@, here: self.here }
    }
}

impl WalkView {
    /// Every number is that of a folder, and none is listed twice.
    pub open spec fn ok(self) -> bool {
        &&& self.here < self.rels.len()
        &&& forall|k: int| 0 <= k < self.todo.len() ==> #[trigger] self.todo[k] < self.rels.len()
        &&& forall|j: int, k: int|
            0 <= j < k < self.todo.len() ==> #[trigger] self.todo[j] < #[trigger] self.todo[k]
    }
}

/// A walk that has not begun.
pub open spec fn walk_start() -> WalkView {
    WalkView { rels: seq![Seq::empty()], todo: seq![0usize], here: 0 }
}

/// A walk once the next folder is being read.
pub open spec fn turned(v: WalkView) -> WalkView {
    if v.todo.len() > 0 {
        WalkView { todo: v.todo.drop_last(), here: v.todo.last(), ..v }
    } else {
        v
    }
}

/// A walk once it has come upon a folder in the one that is being read.
pub open spec fn entered(v: WalkView, name: Seq<char>) -> WalkView {
    WalkView {
        rels: v.rels.push(relative_path(v.rels[v.here as int], name)),
        todo: v.todo.push(v.rels.len() as usize),
        ..v
    }
}

/// What to do with an entry of the folder that is being read.
#[derive(Clone, Copy, Debug, PartialEq, Eq, Structural)]
pub enum WalkStep {
    Skip,
    /// It is a folder, which gets this number.
    Enter(usize),
    /// It is a file.
    Take,
}

/// What to do with an entry when looking for links.
pub enum SearchStep {
    /// It is a link; this is how to name it.
    Found(String),
    /// It is a folder, which gets this number.
    Enter(usize),
    Skip,
}

impl FolderWalk {
    /// The numbers are right.
    pub open spec fn wf(&self) -> bool {
        self@.ok()
    }

    /// A walk that has not begun: the first folder, number 0, is still to be read.
    pub fn new() -> (r: Self)
        ensures
            r.wf(),
            r@ == walk_start(),
    {
        let r = FolderWalk { rels: vec![String::new()], todo: vec![0], here: 0 };
        assert(r@ =~= walk_start());
        r
    }

    /// The number of the next folder to read, if one is left.
    pub fn next_folder(&mut self) -> (r: Option<usize>)
        requires
            old(self).wf(),
        ensures
            final(self).wf(),
            final(self)@ == turned(old(self)@),
            match r {
                Some(id) => old(self)@.todo.len() > 0 && id == old(self)@.todo.last() && id < old(
                    self,
                )@.rels.len(),
                None => old(self)@.todo.len() == 0,
            },
    {
        let ghost before = self@;
        match self.todo.pop() {
            Some(id) => {
                assert(before.todo[before.todo.len() - 1] == id);
                self.here = id;
                assert forall|j: int, k: int| 0 <= j < k < self@.todo.len() implies
                    #[trigger] self@.todo[j] < #[trigger] self@.todo[k] by {
                    assert(before.todo[j] < before.todo[k]);
                }
                Some(id)
            },
            None => None,
        }
    }

    fn enter(&mut self, name: &str) -> (id: usize)
        requires
            old(self).wf(),
        ensures
            final(self).wf(),
            final(self)@ == entered(old(self)@, name@),
            id == old(self)@.rels.len(),
    {
        let ghost before = self@;
        let id: usize = self.rels.len();
        let rel = join_relative(self.rels[self.here].as_str(), name);
        self.rels.push(rel);
        self.todo.push(id);
        assert(self@ =~= entered(before, name@));
        id
    }

    /// What to do with an entry of the folder that is being read, where that is copied or
    /// counted: links are skipped, folders entered and files taken.
    pub fn entry(&mut self, name: &str, is_symlink: bool, is_dir: bool, is_file: bool) -> (r:
        WalkStep)
        requires
            old(self).wf(),
        ensures
            final(self).wf(),
            match used_as(is_symlink, is_dir, is_file) {
                EntryUse::Skip => r == WalkStep::Skip && final(self)@ == old(self)@,
                EntryUse::Take => r == WalkStep::Take && final(self)@ == old(self)@,
                EntryUse::Enter => {
                    &&& r == WalkStep::Enter(old(self)@.rels.len() as usize)
                    &&& final(self)@ == entered(old(self)@, name@)
                },
            },
    {
        match entry_use(is_symlink, is_dir, is_file) {
            EntryUse::Skip => WalkStep::Skip,
            EntryUse::Take => WalkStep::Take,
            EntryUse::Enter => WalkStep::Enter(self.enter(name)),
        }
    }

    /// What to do with an entry of the folder that is being read, where links are looked for
    /// below the folder `root`: a link ends the search, other folders are entered.
    pub fn find_reparse_entry(&mut self, root: &str, name: &str, attributes: u32, is_dir: bool)
        -> (r: SearchStep)
        requires
            old(self).wf(),
        ensures
            final(self).wf(),
            if attributes & FILE_ATTRIBUTE_REPARSE_POINT != 0 {
                &&& r matches SearchStep::Found(p) && p@ == root@.push('\\') + relative_path(
                    old(self)@.rels[old(self)@.here as int],
                    name@,
                )
                &&& final(self)@ == old(self)@
            } else if is_dir {
                &&& r == SearchStep::Enter(old(self)@.rels.len() as usize)
                &&& final(self)@ == entered(old(self)@, name@)
            } else {
                r == SearchStep::Skip && final(self)@ == old(self)@
            },
    {
        if attributes & FILE_ATTRIBUTE_REPARSE_POINT != 0 {
            SearchStep::Found(offender_path(root, self.rels[self.here].as_str(), name))
        } else if is_dir {
            SearchStep::Enter(self.enter(name))
        } else {
            SearchStep::Skip
        }
    }
}

/// How many files a folder holds, and how many bytes.
#[derive(Clone, Copy, Debug, PartialEq, Eq, Structural)]
pub struct FolderTotals {
    pub count: u64,
    pub size: u64,
}

impl FolderTotals {
    /// Counts one more file, unless the totals would not fit.
    pub fn take(&mut self, len: u64) -> (ok: bool)
        ensures
            ok == (old(self).count < u64::MAX && old(self).size + len <= u64::MAX),
            ok ==> final(self).count == old(self).count + 1 && final(self).size == old(self).size
                + len,
            !ok ==> *final(self) == *old(self),
    {
        if self.count < u64::MAX && len <= u64::MAX - self.size {
            self.count += 1;
            self.size += len;
            true
        } else {
            false
        }
    }
}

/// What a folder holds.
#[verifier::ext_equal]
pub struct FolderModel {
    pub entries: Seq<EntryModel>,
}

/// An entry of a folder: its name and what it is.
#[verifier::ext_equal]
pub struct EntryModel {
    pub name: Seq<char>,
    pub content: ContentModel,
}

/// What an entry is.
#[verifier::ext_equal]
pub enum ContentModel {
    Link,
    Folder(FolderModel),
    /// A file of so many bytes.
    File(nat),
    Other,
}

/// How many files and bytes the first `k` entries of a folder hold, with everything below them
/// that is not reached through a link.
pub open spec fn held(f: FolderModel, k: nat) -> (nat, nat)
    decreases f, k,
{
    if k == 0 || k > f.entries.len() {
        (0, 0)
    } else {
        let before = held(f, (k - 1) as nat);
        match f.entries[k - 1].content {
            ContentModel::Folder(g) => {
                let below = held(g, g.entries.len());
                (before.0 + below.0, before.1 + below.1)
            },
            ContentModel::File(len) => (before.0 + 1, before.1 + len),
            _ => before,
        }
    }
}

/// The folders among the first `k` entries of a folder.
pub open spec fn subfolders(f: FolderModel, k: nat) -> Seq<FolderModel>
    decreases k,
{
    if k == 0 || k > f.entries.len() {
        Seq::empty()
    } else {
        match f.entries[k - 1].content {
            ContentModel::Folder(g) => subfolders(f, (k - 1) as nat).push(g),
            _ => subfolders(f, (k - 1) as nat),
        }
    }
}

/// A walk and its totals once the first `k` entries of a folder were seen.
pub open spec fn folder_read(v: WalkView, t: (nat, nat), f: FolderModel, k: nat) -> (
    WalkView,
    (nat, nat),
)
    decreases k,
{
    if k == 0 || k > f.entries.len() {
        (v, t)
    } else {
        let (w, u) = folder_read(v, t, f, (k - 1) as nat);
        let e = f.entries[k - 1];
        match e.content {
            ContentModel::Folder(_) => (entered(w, e.name), u),
            ContentModel::File(len) => (w, (u.0 + 1, u.1 + len)),
            _ => (w, u),
        }
    }
}

/// How many files and bytes are in the folders that are still to be read. `folders` is what
/// the numbers stand for.
pub open spec fn still_held(todo: Seq<usize>, folders: Seq<FolderModel>) -> (nat, nat)
    decreases todo.len(),
{
    if todo.len() == 0 {
        (0, 0)
    } else {
        let before = still_held(todo.drop_last(), folders);
        let f = folders[todo.last() as int];
        let last = held(f, f.entries.len());
        (before.0 + last.0, before.1 + last.1)
    }
}

/// The totals so far and what is still to be read make up what the first folder holds.
pub open spec fn count_is_right(
    v: WalkView,
    folders: Seq<FolderModel>,
    t: (nat, nat),
    root: FolderModel,
) -> bool {
    let left = still_held(v.todo, folders);
    let all = held(root, root.entries.len());
    &&& v.ok()
    &&& folders.len() == v.rels.len()
    &&& t.0 + left.0 == all.0
    &&& t.1 + left.1 == all.1
}

proof fn lemma_more_folders(todo: Seq<usize>, folders: Seq<FolderModel>, more: Seq<FolderModel>)
    requires
        forall|k: int| 0 <= k < todo.len() ==> #[trigger] todo[k] < folders.len(),
    ensures
        still_held(todo, folders + more) == still_held(todo, folders),
    decreases todo.len(),
{
    if todo.len() > 0 {
        assert(todo[todo.len() - 1] < folders.len());
        lemma_more_folders(todo.drop_last(), folders, more);
    }
}

proof fn lemma_folder_read(
    v: WalkView,
    folders: Seq<FolderModel>,
    t: (nat, nat),
    f: FolderModel,
    k: nat,
)
    requires
        v.ok(),
        folders.len() == v.rels.len(),
        v.rels.len() + k <= usize::MAX,
        k <= f.entries.len(),
    ensures
        ({
            let (w, u) = folder_read(v, t, f, k);
            let left = still_held(w.todo, folders + subfolders(f, k));
            let was = still_held(v.todo, folders);
            &&& w.ok()
            &&& w.rels.len() == folders.len() + subfolders(f, k).len()
            &&& w.rels.len() <= v.rels.len() + k
            &&& u.0 + left.0 == t.0 + was.0 + held(f, k).0
            &&& u.1 + left.1 == t.1 + was.1 + held(f, k).1
        }),
    decreases k,
{
    if k == 0 {
        assert(folders + subfolders(f, k) =~= folders);
    } else {
        let n = (k - 1) as nat;
        lemma_folder_read(v, folders, t, f, n);
        let (w, u) = folder_read(v, t, f, n);
        let known = folders + subfolders(f, n);
        match f.entries[k - 1].content {
            ContentModel::Folder(g) => {
                let x = entered(w, f.entries[k - 1].name);
                assert(folders + subfolders(f, k) =~= known + seq![g]);
                assert(x.todo.drop_last() =~= w.todo);
                assert((known + seq![g])[x.todo.last() as int] == g);
                lemma_more_folders(w.todo, known, seq![g]);
            },
            _ => {},
        }
    }
}

/// Whatever a folder holds, its files and their bytes are counted once each, and nothing is
/// left out: the totals are right at the start, reading a folder keeps them right, and when no
/// folder is left they are those of the whole.
pub proof fn law_everything_is_counted_once(
    v: WalkView,
    folders: Seq<FolderModel>,
    t: (nat, nat),
    root: FolderModel,
)
    ensures
        count_is_right(walk_start(), seq![root], (0, 0), root),
        count_is_right(v, folders, t, root) && v.todo.len() > 0 && v.rels.len()
            + folders[v.todo.last() as int].entries.len() <= usize::MAX ==> ({
            let f = folders[v.todo.last() as int];
            let (w, u) = folder_read(turned(v), t, f, f.entries.len());
            count_is_right(w, folders + subfolders(f, f.entries.len()), u, root)
        }),
        count_is_right(v, folders, t, root) && v.todo.len() == 0 ==> t == held(
            root,
            root.entries.len(),
        ),
{
    let s = walk_start();
    assert(s.todo.drop_last() =~= Seq::<usize>::empty());
    assert(still_held(s.todo.drop_last(), seq![root]) == (0nat, 0nat));
    if count_is_right(v, folders, t, root) && v.todo.len() > 0 {
        let f = folders[v.todo.last() as int];
        let n = turned(v);
        assert(v.todo[v.todo.len() - 1] < v.rels.len());
        assert forall|j: int, k: int| 0 <= j < k < n.todo.len() implies #[trigger] n.todo[j]
            < #[trigger] n.todo[k] by {
            assert(v.todo[j] < v.todo[k]);
        }
        if v.rels.len() + f.entries.len() <= usize::MAX {
            lemma_folder_read(n, folders, t, f, f.entries.len());
        }
    }
}

/// No folder is read twice: the next one is not among those that come later, nor does any
/// folder that is come upon get its number.
pub proof fn law_no_folder_is_read_twice(v: WalkView, name: Seq<char>)
    requires
        v.ok(),
        v.rels.len() < usize::MAX,
    ensures
        turned(v).ok(),
        entered(v, name).ok(),
        v.todo.len() > 0 ==> !turned(v).todo.contains(v.todo.last()),
        entered(v, name).todo.last() == v.rels.len(),
        entered(v, name).rels.len() == v.rels.len() + 1,
{
    let n = turned(v);
    if v.todo.len() > 0 {
        let last = v.todo.len() - 1;
        assert(v.todo[last] < v.rels.len());
        assert forall|j: int, k: int| 0 <= j < k < n.todo.len() implies #[trigger] n.todo[j]
            < #[trigger] n.todo[k] by {
            assert(v.todo[j] < v.todo[k]);
        }
        if n.todo.contains(v.todo.last()) {
            let k = choose|k: int| 0 <= k < n.todo.len() && n.todo[k] == v.todo.last();
            assert(v.todo[k] < v.todo[last]);
        }
    }
}

} // verus!
