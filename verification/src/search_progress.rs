//! What is told of a search for duplicates while it runs: how many files of the phase are done,
//! of how many.

use vstd::prelude::*;

use crate::dedup::{report_due, HashPhase};

verus! {

/// What is told: so many files of a phase are done, of so many.
#[derive(Clone, Copy, Debug, PartialEq, Eq, Structural)]
pub struct Report {
    pub phase: HashPhase,
    pub done: u64,
    pub total: u64,
}

/// How far a search is.
pub struct SearchProgress {
    phase: HashPhase,
    done: u64,
    total: u64,
    files: u64,
    told: Ghost<Seq<Report>>,
}

/// What a [`SearchProgress`] knows.
#[verifier::ext_equal]
pub struct ProgressView {
    pub phase: HashPhase,
    /// How many files of the phase are done.
    pub done: u64,
    /// How many files the phase has.
    pub total: u64,
    /// How many files the search has.
    pub files: u64,
    /// What was told so far.
    pub told: Seq<Report>,
}

impl View for SearchProgress {
    type V = ProgressView;

    closed spec fn view(&self) -> ProgressView {
        ProgressView {
            phase: self.phase,
            done: self.done,
            total: self.total,
            files: self.files,
            told: self.told@,
        }
    }
}

/// Reports in the order in which they have to come: no more is done than there is, what is done
/// never gets less within a phase, a phase keeps its total, and no report on the first phase
/// follows one on the second.
pub open spec fn in_order(told: Seq<Report>) -> bool {
    &&& forall|i: int| 0 <= i < told.len() ==> (#[trigger] told[i]).done <= told[i].total
    &&& forall|i: int, j: int|
        0 <= i < j < told.len() && (#[trigger] told[i]).phase == (#[trigger] told[j]).phase
            ==> told[i].done <= told[j].done && told[i].total == told[j].total
    &&& forall|i: int, j: int|
        0 <= i < j < told.len() && (#[trigger] told[i]).phase == HashPhase::Confirm ==> (
        #[trigger] told[j]).phase == HashPhase::Confirm
}

/// The last report on the first phase says that all files are done.
pub open spec fn first_phase_ended(told: Seq<Report>, files: u64) -> bool {
    exists|i: int| #[trigger]
        is_end(told, i, files) && forall|j: int|
            i < j < told.len() ==> (#[trigger] told[j]).phase == HashPhase::Confirm
}

/// A report says that all files of the first phase are done.
pub open spec fn is_end(told: Seq<Report>, i: int, files: u64) -> bool {
    0 <= i < told.len() && told[i] == (Report {
        phase: HashPhase::Prefilter,
        done: files,
        total: files,
    })
}

impl ProgressView {
    /// What was told is in order and fits what is known.
    pub open spec fn ok(self) -> bool {
        &&& self.done <= self.total <= self.files
        &&& in_order(self.told)
        &&& forall|i: int|
            0 <= i < self.told.len() && (#[trigger] self.told[i]).phase == self.phase
                ==> self.told[i].total == self.total && self.told[i].done <= self.done
        &&& self.phase == HashPhase::Prefilter ==> self.total == self.files && forall|i: int|
            0 <= i < self.told.len() ==> (#[trigger] self.told[i]).phase == HashPhase::Prefilter
        &&& self.phase == HashPhase::Confirm && self.files > 0 ==> first_phase_ended(
            self.told,
            self.files,
        )
        &&& self.done == self.total && self.total > 0 ==> self.told.len() > 0 && self.told.last()
            == (Report { phase: self.phase, done: self.total, total: self.total })
    }
}

/// Whether something is told once so many more files are done.
pub open spec fn is_told(v: ProgressView, more: u64, since_last_ms: u64) -> bool {
    v.done + more == v.total || since_last_ms >= 50
}

/// How far a search is once so many more files are done.
pub open spec fn gone_on(v: ProgressView, more: u64, since_last_ms: u64) -> ProgressView {
    let done = (v.done + more) as u64;
    ProgressView {
        done,
        told: if is_told(v, more, since_last_ms) {
            v.told.push(Report { phase: v.phase, done, total: v.total })
        } else {
            v.told
        },
        ..v
    }
}

/// How far a search is at the start of its second phase.
pub open spec fn confirming(v: ProgressView, total: u64) -> ProgressView {
    ProgressView { phase: HashPhase::Confirm, done: 0, total, ..v }
}

/// A search of so many files that has not begun.
pub open spec fn not_begun(files: u64) -> ProgressView {
    ProgressView {
        phase: HashPhase::Prefilter,
        done: 0,
        total: files,
        files,
        told: Seq::empty(),
    }
}

impl SearchProgress {
    /// What was told is in order.
    pub open spec fn wf(&self) -> bool {
        self@.ok()
    }

    /// A search of so many files that has not begun.
    pub fn new(files: u64) -> (r: Self)
        ensures
            r.wf(),
            r@ == not_begun(files),
    {
        SearchProgress {
            phase: HashPhase::Prefilter,
            done: 0,
            total: files,
            files,
            told: Ghost(Seq::empty()),
        }
    }

    /// How many files of the phase are not done.
    pub fn left(&self) -> (n: u64)
        requires
            self.wf(),
        ensures
            n == self@.total - self@.done,
    {
        self.total - self.done
    }

    /// So many more files are done, one at least, and the last report is so long ago. Gives what
    /// to tell: at the end of the phase, and else every 50 ms.
    pub fn finished(&mut self, more: u64, since_last_ms: u64) -> (r: Option<Report>)
        requires
            old(self).wf(),
            0 < more <= old(self)@.total - old(self)@.done,
        ensures
            final(self).wf(),
            final(self)@ == gone_on(old(self)@, more, since_last_ms),
            r == if is_told(old(self)@, more, since_last_ms) {
                Some(
                    Report {
                        phase: old(self)@.phase,
                        done: (old(self)@.done + more) as u64,
                        total: old(self)@.total,
                    },
                )
            } else {
                None::<Report>
            },
    {
        proof {
            law_reports_stay_in_order(self@, more, since_last_ms);
        }
        self.done = self.done + more;
        if report_due(self.done, self.total, since_last_ms) {
            let report = Report { phase: self.phase, done: self.done, total: self.total };
            self.told = Ghost(self.told@.push(report));
            Some(report)
        } else {
            None
        }
    }

    /// Whether the second phase can begin with so many files.
    pub fn can_confirm(&self, total: u64) -> (r: bool)
        ensures
            r == (self@.phase == HashPhase::Prefilter && self@.done == self@.total && total
                <= self@.files),
    {
        match self.phase {
            HashPhase::Prefilter => self.done == self.total && total <= self.files,
            HashPhase::Confirm => false,
        }
    }

    /// The second phase begins, with so many files; every file of the first is done.
    pub fn confirm(&mut self, total: u64)
        requires
            old(self).wf(),
            old(self)@.phase == HashPhase::Prefilter,
            old(self)@.done == old(self)@.total,
            total <= old(self)@.files,
        ensures
            final(self).wf(),
            final(self)@ == confirming(old(self)@, total),
    {
        proof {
            law_phases_follow_one_another(self@, total);
        }
        self.phase = HashPhase::Confirm;
        self.done = 0;
        self.total = total;
    }
}

/// Going on keeps what is told in order, and tells the end: when all files of a phase are done,
/// the last report says so.
pub proof fn law_reports_stay_in_order(v: ProgressView, more: u64, since_last_ms: u64)
    requires
        v.ok(),
        0 < more <= v.total - v.done,
    ensures
        gone_on(v, more, since_last_ms).ok(),
        v.told.is_prefix_of(gone_on(v, more, since_last_ms).told),
        v.done + more == v.total ==> gone_on(v, more, since_last_ms).told.last() == (Report {
            phase: v.phase,
            done: v.total,
            total: v.total,
        }),
{
    let w = gone_on(v, more, since_last_ms);
    if is_told(v, more, since_last_ms) {
        let last = w.told.last();
        assert forall|i: int| 0 <= i < w.told.len() implies (#[trigger] w.told[i]).done
            <= w.told[i].total by {
            if i < v.told.len() {
                assert(w.told[i] == v.told[i]);
            }
        }
        assert forall|i: int, j: int|
            0 <= i < j < w.told.len() && (#[trigger] w.told[i]).phase == (
            #[trigger] w.told[j]).phase implies w.told[i].done <= w.told[j].done
            && w.told[i].total == w.told[j].total by {
            assert(w.told[i] == v.told[i]);
            if j < v.told.len() {
                assert(w.told[j] == v.told[j]);
            }
        }
        assert forall|i: int, j: int|
            0 <= i < j < w.told.len() && (#[trigger] w.told[i]).phase
                == HashPhase::Confirm implies (#[trigger] w.told[j]).phase
            == HashPhase::Confirm by {
            assert(w.told[i] == v.told[i]);
            if j < v.told.len() {
                assert(w.told[j] == v.told[j]);
            }
        }
        assert forall|i: int| 0 <= i < w.told.len() && (#[trigger] w.told[i]).phase
            == w.phase implies w.told[i].total == w.total && w.told[i].done <= w.done by {
            if i < v.told.len() {
                assert(w.told[i] == v.told[i]);
            }
        }
        if v.phase == HashPhase::Prefilter {
            assert forall|i: int| 0 <= i < w.told.len() implies (#[trigger] w.told[i]).phase
                == HashPhase::Prefilter by {
                if i < v.told.len() {
                    assert(w.told[i] == v.told[i]);
                }
            }
        }
        if v.phase == HashPhase::Confirm && v.files > 0 {
            let e = choose|e: int| #[trigger]
                is_end(v.told, e, v.files) && forall|j: int|
                    e < j < v.told.len() ==> (#[trigger] v.told[j]).phase == HashPhase::Confirm;
            assert(is_end(w.told, e, w.files));
            assert forall|j: int| e < j < w.told.len() implies (#[trigger] w.told[j]).phase
                == HashPhase::Confirm by {
                if j < v.told.len() {
                    assert(w.told[j] == v.told[j]);
                }
            }
        }
    }
}

/// The second phase begins only when the first has told its end, and it has no more files.
pub proof fn law_phases_follow_one_another(v: ProgressView, total: u64)
    requires
        v.ok(),
        v.phase == HashPhase::Prefilter,
        v.done == v.total,
        total <= v.files,
    ensures
        confirming(v, total).ok(),
        v.files > 0 ==> first_phase_ended(v.told, v.files),
{
    if v.files > 0 {
        assert(is_end(v.told, v.told.len() - 1, v.files));
    }
}

} // verus!
