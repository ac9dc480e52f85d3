//! Finding out who holds a file or folder open: what is asked, what was found, and the search
//! through a folder layer by layer.

use vstd::prelude::*;
use vstd::string::*;

use crate::file_ops::{
    lockers_view, strings_view, FolderOccupancy, LockerView, LockingProcess, OccupancyView,
};
use crate::model::text_option;
use crate::session::{LockRequest, RequestView};
use crate::text::owned;
use crate::tree_list::copy_path;

verus! {

/// How many files of a group are asked about at most.
pub const LOCK_CHECK_LIMIT: usize = 2000;

/// What was found out about a request.
pub struct LockCheckResult {
    pub request: LockRequest,
    /// How many files were asked about.
    pub checked_count: usize,
    /// Whether there may be more.
    pub truncated: bool,
    pub procs: Vec<LockingProcess>,
    pub error: Option<String>,
    /// What came of what the user did about an earlier answer.
    pub action_feedback: Option<String>,
    /// Whether the answer is still to come.
    pub loading: bool,
    /// Whether a folder could be renamed.
    pub rename_probe: Option<FolderOccupancy>,
}

/// What a [`LockCheckResult`] holds.
#[verifier::ext_equal]
pub struct LockResultView {
    pub request: RequestView,
    pub checked_count: nat,
    pub truncated: bool,
    pub procs: Seq<LockerView>,
    pub error: Option<Seq<char>>,
    pub action_feedback: Option<Seq<char>>,
    pub loading: bool,
    pub rename_probe: Option<OccupancyView>,
}

/// What an optional [`FolderOccupancy`] says.
pub open spec fn occupancy_option(o: Option<FolderOccupancy>) -> Option<OccupancyView> {
    match o {
        Some(x) => Some(x@),
        None => None,
    }
}

impl View for LockCheckResult {
    type V = LockResultView;

    open spec fn view(&self) -> LockResultView {
        LockResultView {
            request: self.request@,
            checked_count: self.checked_count as nat,
            truncated: self.truncated,
            procs: lockers_view(self.procs@),
            error: text_option(self.error),
            action_feedback: text_option(self.action_feedback),
            loading: self.loading,
            rename_probe: occupancy_option(self.rename_probe),
        }
    }
}

/// A question whose answer is still to come.
pub struct LockCheckPending {
    pub request: LockRequest,
    pub action_feedback: Option<String>,
    pub checked_count: usize,
    pub truncated: bool,
}

/// What a [`LockCheckPending`] holds.
#[verifier::ext_equal]
pub struct PendingView {
    pub request: RequestView,
    pub action_feedback: Option<Seq<char>>,
    pub checked_count: nat,
    pub truncated: bool,
}

impl View for LockCheckPending {
    type V = PendingView;

    open spec fn view(&self) -> PendingView {
        PendingView {
            request: self.request@,
            action_feedback: text_option(self.action_feedback),
            checked_count: self.checked_count as nat,
            truncated: self.truncated,
        }
    }
}

/// What one layer of a search through a folder brought.
#[derive(Clone, Copy, Debug, PartialEq, Eq, Structural)]
pub struct LayerStats {
    pub layer: usize,
    pub files_checked: usize,
    pub subfolders_checked: usize,
    pub subfolders_locked: usize,
    pub new_procs_found: usize,
}

/// A layer whose files are being asked about.
pub struct LayerPending {
    pub next_frontier: Vec<String>,
    pub layer: usize,
    pub subfolders_checked: usize,
    pub subfolders_locked: usize,
    pub files_checked: usize,
}

/// What a [`LayerPending`] holds.
#[verifier::ext_equal]
pub struct LayerView {
    pub next_frontier: Seq<Seq<char>>,
    pub layer: usize,
    pub subfolders_checked: usize,
    pub subfolders_locked: usize,
    pub files_checked: usize,
}

impl View for LayerPending {
    type V = LayerView;

    open spec fn view(&self) -> LayerView {
        LayerView {
            next_frontier: strings_view(self.next_frontier@),
            layer: self.layer,
            subfolders_checked: self.subfolders_checked,
            subfolders_locked: self.subfolders_locked,
            files_checked: self.files_checked,
        }
    }
}

/// A search through a folder, layer by layer.
pub struct LayeredProbe {
    pub root_full_path: String,
    /// The folders whose contents make up the next layer.
    pub frontier: Vec<String>,
    /// How many layers are done.
    pub layer: usize,
    pub procs: Vec<LockingProcess>,
    /// Whether there is no further layer.
    pub exhausted: bool,
    pub pending: Option<LayerPending>,
    pub last_layer_stats: Option<LayerStats>,
}

/// What a [`LayeredProbe`] holds.
#[verifier::ext_equal]
pub struct ProbeView {
    pub root_full_path: Seq<char>,
    pub frontier: Seq<Seq<char>>,
    pub layer: usize,
    pub procs: Seq<LockerView>,
    pub exhausted: bool,
    pub pending: Option<LayerView>,
    pub last_layer_stats: Option<LayerStats>,
}

/// What an optional [`LayerPending`] holds.
pub open spec fn layer_option(p: Option<LayerPending>) -> Option<LayerView> {
    match p {
        Some(x) => Some(x@),
        None => None,
    }
}

impl View for LayeredProbe {
    type V = ProbeView;

    open spec fn view(&self) -> ProbeView {
        ProbeView {
            root_full_path: self.root_full_path@,
            frontier: strings_view(self.frontier@),
            layer: self.layer,
            procs: lockers_view(self.procs@),
            exhausted: self.exhausted,
            pending: layer_option(self.pending),
            last_layer_stats: self.last_layer_stats,
        }
    }
}

/// Everything about finding out who holds something open.
pub struct LockPanel {
    pub result: Option<LockCheckResult>,
    pub pending: Option<LockCheckPending>,
    pub probe: Option<LayeredProbe>,
}

/// What a [`LockPanel`] holds.
#[verifier::ext_equal]
pub struct PanelView {
    pub result: Option<LockResultView>,
    pub pending: Option<PendingView>,
    pub probe: Option<ProbeView>,
}

impl View for LockPanel {
    type V = PanelView;

    open spec fn view(&self) -> PanelView {
        PanelView {
            result: match self.result {
                Some(x) => Some(x@),
                None => None,
            },
            pending: match self.pending {
                Some(x) => Some(x@),
                None => None,
            },
            probe: match self.probe {
                Some(x) => Some(x@),
                None => None,
            },
        }
    }
}

/// What is known when a request comes in: the files of the group that it is about, or whether
/// the folder that it is about could be renamed.
pub struct LockFindings {
    pub members: Vec<String>,
    pub rename_probe: FolderOccupancy,
}

/// An answer with nothing found yet.
pub open spec fn answer(request: RequestView, feedback: Option<Seq<char>>) -> LockResultView {
    LockResultView {
        request,
        checked_count: 0,
        truncated: false,
        procs: Seq::empty(),
        error: None,
        action_feedback: feedback,
        loading: false,
        rename_probe: None,
    }
}

/// The files that are asked about.
pub open spec fn asked_about(request: RequestView, members: Seq<Seq<char>>) -> Seq<Seq<char>> {
    if request.is_group {
        if members.len() > LOCK_CHECK_LIMIT {
            members.take(LOCK_CHECK_LIMIT as int)
        } else {
            members
        }
    } else {
        seq![request.full_path]
    }
}

/// What happens on a request, and the files to ask about, if any. A group without files is an
/// error. A folder is answered by whether it could be renamed, and its files are not asked about.
pub open spec fn requested(
    p: PanelView,
    request: RequestView,
    feedback: Option<Seq<char>>,
    members: Seq<Seq<char>>,
    renamed: OccupancyView,
) -> (PanelView, Option<Seq<Seq<char>>>) {
    let q = PanelView { probe: None, ..p };
    let a = answer(request, feedback);
    if request.is_group && members.len() == 0 {
        (
            PanelView {
                result: Some(
                    LockResultView {
                        error: Some(
                            "这个分组现在没有可查的文件（可能已经被处理/删除了）。"@,
                        ),
                        ..a
                    },
                ),
                ..q
            },
            None,
        )
    } else if !request.is_group && request.is_folder {
        (
            PanelView { result: Some(LockResultView { rename_probe: Some(renamed), ..a }), ..q },
            None,
        )
    } else {
        let count = if request.is_group {
            members.len()
        } else {
            1
        };
        let truncated = count >= LOCK_CHECK_LIMIT;
        (
            PanelView {
                result: Some(
                    LockResultView { checked_count: count, truncated, loading: true, ..a },
                ),
                pending: Some(
                    PendingView { request, action_feedback: feedback, checked_count: count, truncated },
                ),
                ..q
            },
            Some(asked_about(request, members)),
        )
    }
}

/// What an answer is made of: the processes, or what went wrong.
pub open spec fn found_view(r: Result<Vec<LockingProcess>, String>) -> Result<
    Seq<LockerView>,
    Seq<char>,
> {
    match r {
        Ok(v) => Ok(lockers_view(v@)),
        Err(e) => Err(e@),
    }
}

/// What happens when the answer comes.
pub open spec fn answered(p: PanelView, found: Result<Seq<LockerView>, Seq<char>>) -> PanelView {
    match p.pending {
        Some(w) => PanelView {
            result: Some(
                LockResultView {
                    request: w.request,
                    checked_count: w.checked_count,
                    truncated: w.truncated,
                    procs: match found {
                        Ok(ps) => ps,
                        Err(_) => Seq::empty(),
                    },
                    error: match found {
                        Ok(_) => None,
                        Err(e) => Some(e),
                    },
                    action_feedback: w.action_feedback,
                    loading: false,
                    rename_probe: None,
                },
            ),
            pending: None,
            ..p
        },
        None => p,
    }
}

fn copy_request(r: &LockRequest) -> (c: LockRequest)
    ensures
        c@ == r@,
{
    LockRequest {
        tab_idx: r.tab_idx,
        is_view_tab: r.is_view_tab,
        abs_path: copy_path(&r.abs_path),
        name: owned(r.name.as_str()),
        full_path: owned(r.full_path.as_str()),
        is_folder: r.is_folder,
        is_group: r.is_group,
    }
}

fn copy_text(t: &Option<String>) -> (c: Option<String>)
    ensures
        text_option(c) == text_option(*t),
{
    match t {
        Some(s) => Some(owned(s.as_str())),
        None => None,
    }
}

fn no_procs() -> (r: Vec<LockingProcess>)
    ensures
        lockers_view(r@) == Seq::<LockerView>::empty(),
{
    let r: Vec<LockingProcess> = Vec::new();
    assert(lockers_view(r@) =~= Seq::<LockerView>::empty());
    r
}

fn first_paths(v: &Vec<String>, limit: usize) -> (r: Vec<String>)
    ensures
        strings_view(r@) == if v@.len() > limit {
            strings_view(v@).take(limit as int)
        } else {
            strings_view(v@)
        },
{
    let mut r: Vec<String> = Vec::new();
    let mut i: usize = 0;
    while i < v.len() && i < limit
        invariant
            i <= v@.len(),
            i <= limit,
            r@.len() == i,
            forall|k: int| 0 <= k < i ==> (#[trigger] r@[k])@ == v@[k]@,
        decreases v@.len() - i,
    {
        r.push(owned(v[i].as_str()));
        i += 1;
    }
    assert(strings_view(r@) =~= if v@.len() > limit {
        strings_view(v@).take(limit as int)
    } else {
        strings_view(v@)
    });
    r
}

/// What an optional list of paths holds.
pub open spec fn paths_option(v: Option<Vec<String>>) -> Option<Seq<Seq<char>>> {
    match v {
        Some(x) => Some(strings_view(x@)),
        None => None,
    }
}

impl LockPanel {
    /// Nothing asked yet.
    pub fn new() -> (r: Self)
        ensures
            r@ == (PanelView { result: None, pending: None, probe: None }),
    {
        LockPanel { result: None, pending: None, probe: None }
    }

    /// A request comes in. Gives the files to ask about, if any.
    pub fn run_lock_check_with_feedback(
        &mut self,
        request: LockRequest,
        action_feedback: Option<String>,
        findings: LockFindings,
    ) -> (ask: Option<Vec<String>>)
        ensures
            (final(self)@, paths_option(ask)) == requested(
                old(self)@,
                request@,
                text_option(action_feedback),
                strings_view(findings.members@),
                findings.rename_probe@,
            ),
    {
        self.probe = None;
        if request.is_group && findings.members.len() == 0 {
            self.result = Some(
                LockCheckResult {
                    request,
                    checked_count: 0,
                    truncated: false,
                    procs: no_procs(),
                    error: Some(
                        owned("这个分组现在没有可查的文件（可能已经被处理/删除了）。"),
                    ),
                    action_feedback,
                    loading: false,
                    rename_probe: None,
                },
            );
            return None;
        }
        if !request.is_group && request.is_folder {
            self.result = Some(
                LockCheckResult {
                    request,
                    checked_count: 0,
                    truncated: false,
                    procs: no_procs(),
                    error: None,
                    action_feedback,
                    loading: false,
                    rename_probe: Some(findings.rename_probe),
                },
            );
            return None;
        }
        let count: usize = if request.is_group {
            findings.members.len()
        } else {
            1
        };
        let truncated = count >= LOCK_CHECK_LIMIT;
        let ask = if request.is_group {
            first_paths(&findings.members, LOCK_CHECK_LIMIT)
        } else {
            let mut one: Vec<String> = Vec::new();
            one.push(owned(request.full_path.as_str()));
            assert(strings_view(one@) =~= seq![request.full_path@]);
            one
        };
        self.result = Some(
            LockCheckResult {
                request: copy_request(&request),
                checked_count: count,
                truncated,
                procs: no_procs(),
                error: None,
                action_feedback: copy_text(&action_feedback),
                loading: true,
                rename_probe: None,
            },
        );
        self.pending = Some(
            LockCheckPending { request, action_feedback, checked_count: count, truncated },
        );
        Some(ask)
    }

    /// The request to ask again, if there was one.
    pub fn last_request(&self) -> (r: Option<LockRequest>)
        ensures
            match r {
                Some(x) => self@.result is Some && x@ == self@.result->0.request,
                None => self@.result is None,
            },
    {
        match &self.result {
            Some(x) => Some(copy_request(&x.request)),
            None => None,
        }
    }

    /// The answer comes.
    pub fn lock_check_done(&mut self, found: Result<Vec<LockingProcess>, String>)
        ensures
            final(self)@ == answered(old(self)@, found_view(found)),
    {
        let mut waiting: Option<LockCheckPending> = None;
        std::mem::swap(&mut waiting, &mut self.pending);
        if let Some(w) = waiting {
            let (procs, error) = match found {
                Ok(ps) => (ps, None),
                Err(e) => (no_procs(), Some(e)),
            };
            self.result = Some(
                LockCheckResult {
                    request: w.request,
                    checked_count: w.checked_count,
                    truncated: w.truncated,
                    procs,
                    error,
                    action_feedback: w.action_feedback,
                    loading: false,
                    rename_probe: None,
                },
            );
        }
    }

    /// The user closes the dialog.
    pub fn close(&mut self)
        ensures
            final(self)@ == (PanelView { result: None, probe: None, ..old(self)@ }),
    {
        self.result = None;
        self.probe = None;
    }
}

} // verus!
