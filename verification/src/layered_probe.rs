//! Searching a folder layer by layer for whoever holds it open.

use vstd::prelude::*;
use vstd::string::*;

use crate::file_ops::{
    lockers_view, strings_view, LockerView, LockingProcess,
};
use crate::lock_check::{
    paths_option, LayerPending, LayerStats, LayerView, LayeredProbe, LockPanel, PanelView,
    ProbeView,
};
use crate::text::{owned, str_eq};

verus! {

/// What stands in a folder that is searched.
pub enum ProbeEntry {
    /// A folder, and whether it could be renamed.
    Folder { path: String, free: bool },
    File { path: String },
}

/// What a [`ProbeEntry`] holds.
#[verifier::ext_equal]
pub enum EntryFound {
    Folder { path: Seq<char>, free: bool },
    File { path: Seq<char> },
}

impl View for ProbeEntry {
    type V = EntryFound;

    open spec fn view(&self) -> EntryFound {
        match self {
            ProbeEntry::Folder { path, free } => EntryFound::Folder { path: path@, free: *free },
            ProbeEntry::File { path } => EntryFound::File { path: path@ },
        }
    }
}

/// What a list of entries holds.
pub open spec fn entries_found(v: Seq<ProbeEntry>) -> Seq<EntryFound> {
    Seq::new(v.len(), |i: int| v[i]@)
}

/// The folders among the first `k` entries that could not be renamed: the next layer is below
/// them.
pub open spec fn folders_held(v: Seq<EntryFound>, k: int) -> Seq<Seq<char>>
    decreases k,
{
    if k <= 0 {
        Seq::empty()
    } else {
        match v[k - 1] {
            EntryFound::Folder { path, free } => if free {
                folders_held(v, k - 1)
            } else {
                folders_held(v, k - 1).push(path)
            },
            EntryFound::File { .. } => folders_held(v, k - 1),
        }
    }
}

/// The files among the first `k` entries.
pub open spec fn files_found(v: Seq<EntryFound>, k: int) -> Seq<Seq<char>>
    decreases k,
{
    if k <= 0 {
        Seq::empty()
    } else {
        match v[k - 1] {
            EntryFound::Folder { .. } => files_found(v, k - 1),
            EntryFound::File { path } => files_found(v, k - 1).push(path),
        }
    }
}

/// How many of the first `k` entries are folders.
pub open spec fn folder_count(v: Seq<EntryFound>, k: int) -> nat
    decreases k,
{
    if k <= 0 {
        0
    } else {
        folder_count(v, k - 1) + if v[k - 1] is Folder {
            1nat
        } else {
            0nat
        }
    }
}

/// The number of the next layer; after the last one that can be counted it stays.
pub open spec fn next_layer(n: usize) -> usize {
    if n == usize::MAX {
        n
    } else {
        (n + 1) as usize
    }
}

/// A search that starts at a folder.
pub open spec fn fresh_probe(root: Seq<char>) -> ProbeView {
    ProbeView {
        root_full_path: root,
        frontier: seq![root],
        layer: 0,
        procs: Seq::empty(),
        exhausted: false,
        pending: None,
        last_layer_stats: None,
    }
}

/// What the user gets for asking for a search: one that starts at the folder that was asked
/// about. A file has no layers.
pub open spec fn probe_started(p: PanelView) -> PanelView {
    match p.result {
        Some(r) => if r.request.is_folder {
            PanelView { probe: Some(fresh_probe(r.request.full_path)), ..p }
        } else {
            p
        },
        None => p,
    }
}

/// What happens when the search is to go on, and the folders whose contents are needed for that,
/// if any: nothing while a layer is being asked about, and without folders the search is over.
pub open spec fn advanced(p: PanelView) -> (PanelView, Option<Seq<Seq<char>>>) {
    match p.probe {
        Some(q) => if q.pending is Some {
            (p, None)
        } else if q.frontier.len() == 0 {
            (PanelView { probe: Some(ProbeView { exhausted: true, ..q }), ..p }, None)
        } else {
            (
                PanelView { probe: Some(ProbeView { frontier: Seq::empty(), ..q }), ..p },
                Some(q.frontier),
            )
        },
        None => (p, None),
    }
}

/// A search once a layer is done.
pub open spec fn layer_over(q: ProbeView, w: LayerView, new_procs_found: usize) -> ProbeView {
    ProbeView {
        frontier: w.next_frontier,
        layer: w.layer,
        exhausted: w.next_frontier.len() == 0,
        pending: None,
        last_layer_stats: Some(
            LayerStats {
                layer: w.layer,
                files_checked: w.files_checked,
                subfolders_checked: w.subfolders_checked,
                subfolders_locked: w.subfolders_locked,
                new_procs_found,
            },
        ),
        ..q
    }
}

/// What a layer comes to.
pub open spec fn layer_of(q: ProbeView, v: Seq<EntryFound>) -> LayerView {
    LayerView {
        next_frontier: folders_held(v, v.len() as int),
        layer: next_layer(q.layer),
        subfolders_checked: folder_count(v, v.len() as int) as usize,
        subfolders_locked: folders_held(v, v.len() as int).len() as usize,
        files_checked: files_found(v, v.len() as int).len() as usize,
    }
}

/// What happens when the contents of the folders of a layer are known, and the files to ask
/// about, if any. A layer without files is done at once.
pub open spec fn layer_listed(p: PanelView, v: Seq<EntryFound>) -> (
    PanelView,
    Option<Seq<Seq<char>>>,
) {
    match p.probe {
        Some(q) => {
            let files = files_found(v, v.len() as int);
            if files.len() == 0 {
                (PanelView { probe: Some(layer_over(q, layer_of(q, v), 0)), ..p }, None)
            } else {
                (
                    PanelView {
                        probe: Some(ProbeView { pending: Some(layer_of(q, v)), ..q }),
                        ..p
                    },
                    Some(files),
                )
            }
        },
        None => (p, None),
    }
}

/// Whether a process is in a list.
pub open spec fn has_pid(ps: Seq<LockerView>, pid: u32) -> bool {
    exists|i: int| 0 <= i < ps.len() && (#[trigger] ps[i]).pid == pid
}

/// A list of processes with those of the first `k` of another that it did not have.
pub open spec fn merged(ps: Seq<LockerView>, found: Seq<LockerView>, k: int) -> Seq<LockerView>
    decreases k,
{
    if k <= 0 {
        ps
    } else {
        let before = merged(ps, found, k - 1);
        if has_pid(before, found[k - 1].pid) {
            before
        } else {
            before.push(found[k - 1])
        }
    }
}

/// What happens when the files of a layer were asked about. What went wrong is passed over.
pub open spec fn layer_checked(p: PanelView, found: Option<Seq<LockerView>>) -> PanelView {
    match p.probe {
        Some(q) => match q.pending {
            Some(w) => {
                let procs = match found {
                    Some(f) => merged(q.procs, f, f.len() as int),
                    None => q.procs,
                };
                PanelView {
                    probe: Some(
                        layer_over(
                            ProbeView { procs, ..q },
                            w,
                            (procs.len() - q.procs.len()) as usize,
                        ),
                    ),
                    ..p
                }
            },
            None => p,
        },
        None => p,
    }
}

fn knows_pid(ps: &Vec<LockingProcess>, pid: u32) -> (r: bool)
    ensures
        r == has_pid(lockers_view(ps@), pid),
{
    let ghost pv = lockers_view(ps@);
    let mut i: usize = 0;
    while i < ps.len()
        invariant
            i <= ps.len(),
            pv == lockers_view(ps@),
            forall|k: int| 0 <= k < i ==> (#[trigger] pv[k]).pid != pid,
        decreases ps.len() - i,
    {
        assert(pv[i as int] == ps@[i as int]@);
        if ps[i].pid == pid {
            return true;
        }
        i += 1;
    }
    false
}

fn copy_locker(p: &LockingProcess) -> (r: LockingProcess)
    ensures
        r@ == p@,
{
    LockingProcess {
        pid: p.pid,
        app_name: owned(p.app_name.as_str()),
        service_name: match &p.service_name {
            Some(s) => Some(owned(s.as_str())),
            None => None,
        },
    }
}

fn merge_procs(procs: Vec<LockingProcess>, f: &Vec<LockingProcess>) -> (r: Vec<LockingProcess>)
    ensures
        lockers_view(r@) == merged(lockers_view(procs@), lockers_view(f@), f@.len() as int),
        r@.len() >= procs@.len(),
{
    let ghost start = lockers_view(procs@);
    let ghost fv = lockers_view(f@);
    let mut r = procs;
    let mut i: usize = 0;
    while i < f.len()
        invariant
            i <= f.len(),
            fv == lockers_view(f@),
            r@.len() >= start.len(),
            lockers_view(r@) == merged(start, fv, i as int),
        decreases f.len() - i,
    {
        assert(fv[i as int] == f@[i as int]@);
        if !knows_pid(&r, f[i].pid) {
            let ghost before = r@;
            let p = copy_locker(&f[i]);
            r.push(p);
            assert(lockers_view(r@) =~= lockers_view(before).push(p@));
        }
        i += 1;
    }
    r
}

/// The first of each process in a list, the first `k` looked at.
pub open spec fn distinct_pids(ps: Seq<LockerView>, k: int) -> Seq<u32>
    decreases k,
{
    if k <= 0 {
        Seq::empty()
    } else {
        let before = distinct_pids(ps, k - 1);
        if before.contains(ps[k - 1].pid) {
            before
        } else {
            before.push(ps[k - 1].pid)
        }
    }
}

/// The processes in a list, each once.
pub fn pids_of(ps: &Vec<LockingProcess>) -> (r: Vec<u32>)
    ensures
        r@ == distinct_pids(lockers_view(ps@), ps@.len() as int),
{
    let ghost pv = lockers_view(ps@);
    let mut r: Vec<u32> = Vec::new();
    let mut i: usize = 0;
    assert(r@ =~= distinct_pids(pv, 0));
    while i < ps.len()
        invariant
            i <= ps.len(),
            pv == lockers_view(ps@),
            r@ == distinct_pids(pv, i as int),
        decreases ps.len() - i,
    {
        assert(pv[i as int] == ps@[i as int]@);
        let pid: u32 = ps[i].pid;
        let mut known = false;
        let mut k: usize = 0;
        while k < r.len()
            invariant
                k <= r.len(),
                known == r@.take(k as int).contains(pid),
            decreases r.len() - k,
        {
            proof {
                let a = r@.take(k as int);
                let b = r@.take(k + 1);
                assert(b =~= a.push(r@[k as int]));
                if a.contains(pid) {
                    let j = choose|j: int| 0 <= j < a.len() && a[j] == pid;
                    assert(b[j] == pid);
                }
                if r@[k as int] == pid {
                    assert(b[k as int] == pid);
                }
                if b.contains(pid) && r@[k as int] != pid {
                    let j = choose|j: int| 0 <= j < b.len() && b[j] == pid;
                    assert(a[j] == pid);
                }
            }
            if r[k] == pid {
                known = true;
            }
            k += 1;
        }
        assert(r@.take(k as int) =~= r@);
        if !known {
            r.push(pid);
        }
        i += 1;
    }
    r
}

/// No process is ended twice, and none is left out.
pub proof fn law_every_process_once(ps: Seq<LockerView>, k: int)
    requires
        0 <= k <= ps.len(),
    ensures
        distinct_pids(ps, k).no_duplicates(),
        forall|pid: u32| #[trigger]
            distinct_pids(ps, k).contains(pid) <==> has_pid(ps.take(k), pid),
    decreases k,
{
    if k > 0 {
        law_every_process_once(ps, k - 1);
        let before = distinct_pids(ps, k - 1);
        let all = distinct_pids(ps, k);
        let p = ps[k - 1].pid;
        assert forall|pid: u32| #[trigger] all.contains(pid) <==> has_pid(ps.take(k), pid) by {
            assert(before.contains(pid) <==> has_pid(ps.take(k - 1), pid));
            if has_pid(ps.take(k), pid) {
                let i = choose|i: int|
                    0 <= i < ps.take(k).len() && (#[trigger] ps.take(k)[i]).pid == pid;
                if i < k - 1 {
                    assert(ps.take(k - 1)[i].pid == pid);
                }
            }
            if has_pid(ps.take(k - 1), pid) {
                let i = choose|i: int|
                    0 <= i < ps.take(k - 1).len() && (#[trigger] ps.take(k - 1)[i]).pid == pid;
                assert(ps.take(k)[i].pid == pid);
            }
            assert(ps.take(k)[k - 1].pid == p);
            if all.contains(pid) {
                let j = choose|j: int| 0 <= j < all.len() && all[j] == pid;
                if j < before.len() {
                    assert(before[j] == pid);
                }
            }
            if before.contains(pid) {
                let j = choose|j: int| 0 <= j < before.len() && before[j] == pid;
                assert(all[j] == pid);
            }
            if pid == p {
                if !before.contains(p) {
                    assert(all[before.len() as int] == p);
                }
            }
        }
        if !before.contains(p) {
            assert forall|i: int, j: int|
                0 <= i < all.len() && 0 <= j < all.len() && i != j implies all[i] != all[j] by {
                if i < before.len() {
                    assert(before[i] == all[i]);
                    assert(before.contains(all[i]));
                }
                if j < before.len() {
                    assert(before[j] == all[j]);
                    assert(before.contains(all[j]));
                }
            }
        }
    }
}

/// The processes of the first `k` that are not the given one.
pub open spec fn without_pid(ps: Seq<LockerView>, pid: u32, k: int) -> Seq<LockerView>
    decreases k,
{
    if k <= 0 {
        Seq::empty()
    } else if ps[k - 1].pid != pid {
        without_pid(ps, pid, k - 1).push(ps[k - 1])
    } else {
        without_pid(ps, pid, k - 1)
    }
}

/// The processes of the first `k` that do not belong to the given service.
pub open spec fn without_service(ps: Seq<LockerView>, name: Seq<char>, k: int) -> Seq<LockerView>
    decreases k,
{
    if k <= 0 {
        Seq::empty()
    } else if ps[k - 1].service_name != Some(name) {
        without_service(ps, name, k - 1).push(ps[k - 1])
    } else {
        without_service(ps, name, k - 1)
    }
}

fn drop_pid(ps: &Vec<LockingProcess>, pid: u32) -> (r: Vec<LockingProcess>)
    ensures
        lockers_view(r@) == without_pid(lockers_view(ps@), pid, ps@.len() as int),
{
    let ghost pv = lockers_view(ps@);
    let mut r: Vec<LockingProcess> = Vec::new();
    let mut i: usize = 0;
    assert(lockers_view(r@) =~= without_pid(pv, pid, 0));
    while i < ps.len()
        invariant
            i <= ps.len(),
            pv == lockers_view(ps@),
            lockers_view(r@) == without_pid(pv, pid, i as int),
        decreases ps.len() - i,
    {
        assert(pv[i as int] == ps@[i as int]@);
        if ps[i].pid != pid {
            let ghost before = r@;
            let p = copy_locker(&ps[i]);
            r.push(p);
            assert(lockers_view(r@) =~= lockers_view(before).push(p@));
        }
        i += 1;
    }
    r
}

fn drop_service(ps: &Vec<LockingProcess>, name: &str) -> (r: Vec<LockingProcess>)
    ensures
        lockers_view(r@) == without_service(lockers_view(ps@), name@, ps@.len() as int),
{
    let ghost pv = lockers_view(ps@);
    let mut r: Vec<LockingProcess> = Vec::new();
    let mut i: usize = 0;
    assert(lockers_view(r@) =~= without_service(pv, name@, 0));
    while i < ps.len()
        invariant
            i <= ps.len(),
            pv == lockers_view(ps@),
            lockers_view(r@) == without_service(pv, name@, i as int),
        decreases ps.len() - i,
    {
        assert(pv[i as int] == ps@[i as int]@);
        let same = match &ps[i].service_name {
            Some(s) => str_eq(s.as_str(), name),
            None => false,
        };
        if !same {
            let ghost before = r@;
            let p = copy_locker(&ps[i]);
            r.push(p);
            assert(lockers_view(r@) =~= lockers_view(before).push(p@));
        }
        i += 1;
    }
    r
}

/// What happens to a search when the folder turns out to be free: it is over, with nothing found.
pub open spec fn probe_cleared(q: ProbeView) -> ProbeView {
    ProbeView {
        frontier: Seq::empty(),
        exhausted: true,
        procs: Seq::empty(),
        last_layer_stats: None,
        ..q
    }
}

impl LockPanel {
    /// The user wants the folder searched.
    pub fn start_layered_probe(&mut self)
        ensures
            final(self)@ == probe_started(old(self)@),
    {
        let root = match &self.result {
            Some(r) => {
                if !r.request.is_folder {
                    return;
                }
                owned(r.request.full_path.as_str())
            },
            None => return,
        };
        let mut frontier: Vec<String> = Vec::new();
        frontier.push(owned(root.as_str()));
        let procs: Vec<LockingProcess> = Vec::new();
        assert(strings_view(frontier@) =~= seq![root@]);
        assert(lockers_view(procs@) =~= Seq::<LockerView>::empty());
        self.probe = Some(
            LayeredProbe {
                root_full_path: root,
                frontier,
                layer: 0,
                procs,
                exhausted: false,
                pending: None,
                last_layer_stats: None,
            },
        );
    }

    /// The search is to go on. Gives the folders whose contents are needed for that, if any.
    pub fn advance_layered_probe(&mut self) -> (r: Option<Vec<String>>)
        ensures
            (final(self)@, paths_option(r)) == advanced(old(self)@),
    {
        match &mut self.probe {
            Some(q) => {
                if q.pending.is_some() {
                    return None;
                }
                if q.frontier.len() == 0 {
                    q.exhausted = true;
                    return None;
                }
                let mut frontier: Vec<String> = Vec::new();
                std::mem::swap(&mut frontier, &mut q.frontier);
                assert(strings_view(q.frontier@) =~= Seq::<Seq<char>>::empty());
                Some(frontier)
            },
            None => None,
        }
    }

    /// The contents of the folders of a layer are known. Gives the files to ask about, if any.
    pub fn layer_listed(&mut self, entries: &Vec<ProbeEntry>) -> (r: Option<Vec<String>>)
        ensures
            (final(self)@, paths_option(r)) == layer_listed(
                old(self)@,
                entries_found(entries@),
            ),
    {
        let ghost v = entries_found(entries@);
        let mut next_frontier: Vec<String> = Vec::new();
        let mut files: Vec<String> = Vec::new();
        let mut folders: usize = 0;
        let mut i: usize = 0;
        assert(strings_view(next_frontier@) =~= folders_held(v, 0));
        assert(strings_view(files@) =~= files_found(v, 0));
        while i < entries.len()
            invariant
                i <= entries.len(),
                v == entries_found(entries@),
                strings_view(next_frontier@) == folders_held(v, i as int),
                strings_view(files@) == files_found(v, i as int),
                folders == folder_count(v, i as int),
                folders <= i,
            decreases entries.len() - i,
        {
            assert(v[i as int] == entries@[i as int]@);
            match &entries[i] {
                ProbeEntry::Folder { path, free } => {
                    folders += 1;
                    if !*free {
                        let ghost before = next_frontier@;
                        let p = owned(path.as_str());
                        next_frontier.push(p);
                        assert(strings_view(next_frontier@) =~= strings_view(before).push(p@));
                    }
                },
                ProbeEntry::File { path } => {
                    let ghost before = files@;
                    let p = owned(path.as_str());
                    files.push(p);
                    assert(strings_view(files@) =~= strings_view(before).push(p@));
                },
            }
            i += 1;
        }
        let locked: usize = next_frontier.len();
        let files_checked: usize = files.len();
        match &mut self.probe {
            Some(q) => {
                let layer: usize = if q.layer == usize::MAX {
                    q.layer
                } else {
                    q.layer + 1
                };
                if files_checked == 0 {
                    q.exhausted = locked == 0;
                    q.frontier = next_frontier;
                    q.layer = layer;
                    q.pending = None;
                    q.last_layer_stats = Some(
                        LayerStats {
                            layer,
                            files_checked: 0,
                            subfolders_checked: folders,
                            subfolders_locked: locked,
                            new_procs_found: 0,
                        },
                    );
                    None
                } else {
                    q.pending = Some(
                        LayerPending {
                            next_frontier,
                            layer,
                            subfolders_checked: folders,
                            subfolders_locked: locked,
                            files_checked,
                        },
                    );
                    Some(files)
                }
            },
            None => None,
        }
    }

    /// The files of a layer were asked about.
    pub fn layer_checked(&mut self, found: Option<Vec<LockingProcess>>)
        ensures
            final(self)@ == layer_checked(
                old(self)@,
                match found {
                    Some(f) => Some(lockers_view(f@)),
                    None => None,
                },
            ),
    {
        match &mut self.probe {
            Some(q) => {
                let mut waiting: Option<LayerPending> = None;
                std::mem::swap(&mut waiting, &mut q.pending);
                if let Some(w) = waiting {
                    let had: usize = q.procs.len();
                    if let Some(f) = &found {
                        let mut procs: Vec<LockingProcess> = Vec::new();
                        std::mem::swap(&mut procs, &mut q.procs);
                        q.procs = merge_procs(procs, f);
                    }
                    let new_found: usize = q.procs.len() - had;
                    q.exhausted = w.next_frontier.len() == 0;
                    q.frontier = w.next_frontier;
                    q.layer = w.layer;
                    q.last_layer_stats = Some(
                        LayerStats {
                            layer: w.layer,
                            files_checked: w.files_checked,
                            subfolders_checked: w.subfolders_checked,
                            subfolders_locked: w.subfolders_locked,
                            new_procs_found: new_found,
                        },
                    );
                }
            },
            None => {},
        }
    }

    /// The folder turned out to be free. Gives its path, where there was a search.
    pub fn probe_is_free(&mut self) -> (r: Option<String>)
        ensures
            match old(self)@.probe {
                Some(q) => text_is(r, q.root_full_path) && final(self)@ == (PanelView {
                    probe: Some(probe_cleared(q)),
                    ..old(self)@
                }),
                None => r is None && final(self)@ == old(self)@,
            },
    {
        match &mut self.probe {
            Some(q) => {
                q.frontier = Vec::new();
                q.exhausted = true;
                q.procs = Vec::new();
                q.last_layer_stats = None;
                assert(strings_view(q.frontier@) =~= Seq::<Seq<char>>::empty());
                assert(lockers_view(q.procs@) =~= Seq::<LockerView>::empty());
                Some(owned(q.root_full_path.as_str()))
            },
            None => None,
        }
    }

    /// A process was ended: it leaves the search.
    pub fn forget_process(&mut self, pid: u32)
        ensures
            final(self)@ == match old(self)@.probe {
                Some(q) => PanelView {
                    probe: Some(
                        ProbeView { procs: without_pid(q.procs, pid, q.procs.len() as int), ..q },
                    ),
                    ..old(self)@
                },
                None => old(self)@,
            },
    {
        match &mut self.probe {
            Some(q) => {
                q.procs = drop_pid(&q.procs, pid);
            },
            None => {},
        }
    }

    /// A service was told to stop: its processes leave the search.
    pub fn forget_service(&mut self, name: &str)
        ensures
            final(self)@ == match old(self)@.probe {
                Some(q) => PanelView {
                    probe: Some(
                        ProbeView {
                            procs: without_service(q.procs, name@, q.procs.len() as int),
                            ..q
                        },
                    ),
                    ..old(self)@
                },
                None => old(self)@,
            },
    {
        match &mut self.probe {
            Some(q) => {
                q.procs = drop_service(&q.procs, name);
            },
            None => {},
        }
    }
}

/// There is a text, and it is the given one.
pub open spec fn text_is(r: Option<String>, s: Seq<char>) -> bool {
    match r {
        Some(t) => t@ == s,
        None => false,
    }
}

/// A search goes only where something is held: every folder of the next layer could not be
/// renamed.
pub proof fn law_free_folders_are_not_searched(v: Seq<EntryFound>, k: int, path: Seq<char>)
    requires
        0 <= k <= v.len(),
    ensures
        folders_held(v, k).contains(path) <==> exists|i: int|
            0 <= i < k && #[trigger] v[i] == (EntryFound::Folder { path, free: false }),
    decreases k,
{
    if k > 0 {
        law_free_folders_are_not_searched(v, k - 1, path);
        let before = folders_held(v, k - 1);
        let all = folders_held(v, k);
        if all.contains(path) {
            let j = choose|j: int| 0 <= j < all.len() && all[j] == path;
            if j < before.len() {
                assert(before[j] == path);
                assert(before.contains(path));
            } else {
                assert(v[k - 1] == (EntryFound::Folder { path, free: false }));
            }
        }
        if exists|i: int|
            0 <= i < k && #[trigger] v[i] == (EntryFound::Folder { path, free: false }) {
            let i = choose|i: int|
                0 <= i < k && #[trigger] v[i] == (EntryFound::Folder { path, free: false });
            if i < k - 1 {
                assert(before.contains(path));
                let j = choose|j: int| 0 <= j < before.len() && before[j] == path;
                assert(all[j] == path);
            } else {
                assert(all[before.len() as int] == path);
            }
        }
    }
}

/// No process is found twice.
pub proof fn law_processes_are_found_once(ps: Seq<LockerView>, found: Seq<LockerView>, k: int)
    requires
        0 <= k <= found.len(),
        forall|i: int, j: int|
            0 <= i < j < ps.len() ==> (#[trigger] ps[i]).pid != (#[trigger] ps[j]).pid,
    ensures
        forall|i: int, j: int|
            0 <= i < j < merged(ps, found, k).len() ==> (#[trigger] merged(ps, found, k)[i]).pid
                != (#[trigger] merged(ps, found, k)[j]).pid,
    decreases k,
{
    if k > 0 {
        law_processes_are_found_once(ps, found, k - 1);
        let before = merged(ps, found, k - 1);
        let all = merged(ps, found, k);
        if !has_pid(before, found[k - 1].pid) {
            assert forall|i: int, j: int| 0 <= i < j < all.len() implies (#[trigger] all[i]).pid != (
            #[trigger] all[j]).pid by {
                assert(all[i] == before[i]);
                if j < before.len() {
                    assert(all[j] == before[j]);
                }
            }
        }
    }
}

} // verus!
