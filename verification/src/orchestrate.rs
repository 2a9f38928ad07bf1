//! The push orchestrator.
//!
//! The orchestrator walks the attempt order, one push per candidate,
//! stopping at the first success. A failure aborts the run under fail-fast
//! and otherwise advances to the next candidate; running out of candidates
//! fails the run. Performing the push is collaborator I/O: the caller asks
//! for the current remote, pushes, and reports the outcome back.

use vstd::prelude::*;

use crate::errors::Error;
use crate::lex::clone_names;

verus! {

/// Where a run stands. `Pending` is initial; `Succeeded`, `FailedFast` and
/// `ExhaustedAllFailed` are terminal. The index names a position in the
/// attempt order.
#[derive(Debug, PartialEq, Eq, Structural, Clone, Copy)]
pub enum Phase {
    /// No attempt made yet.
    Pending,
    /// The candidate at this index is being attempted.
    Attempting { idx: usize },
    /// The candidate at this index was pushed successfully.
    Succeeded { idx: usize },
    /// The candidate at this index failed under fail-fast.
    FailedFast { idx: usize },
    /// Every candidate was attempted and failed.
    ExhaustedAllFailed,
}

/// The phase after recording one outcome while attempting candidate
/// `idx` of `len`: success ends the run; failure ends it under fail-fast,
/// moves on when candidates remain, and exhausts the order otherwise.
pub open spec fn spec_record(phase: Phase, success: bool, fail_fast: bool, len: nat) -> Phase {
    match phase {
        Phase::Attempting { idx } => if success {
            Phase::Succeeded { idx }
        } else if fail_fast {
            Phase::FailedFast { idx }
        } else if idx + 1 < len {
            Phase::Attempting { idx: (idx + 1) as usize }
        } else {
            Phase::ExhaustedAllFailed
        },
        _ => phase,
    }
}

/// The terminal phase reached from candidate `idx` onward when candidate
/// `k`'s push would return `outcomes[k]`: the run `spec_record`s its way
/// forward until it stops.
pub open spec fn spec_run_from(idx: int, fail_fast: bool, outcomes: Seq<bool>) -> Phase
    decreases outcomes.len() - idx,
{
    if 0 <= idx < outcomes.len() {
        if outcomes[idx] {
            Phase::Succeeded { idx: idx as usize }
        } else if fail_fast {
            Phase::FailedFast { idx: idx as usize }
        } else if idx + 1 < outcomes.len() {
            spec_run_from(idx + 1, fail_fast, outcomes)
        } else {
            Phase::ExhaustedAllFailed
        }
    } else {
        Phase::ExhaustedAllFailed
    }
}

/// One step of the run is one `spec_record`: what the machine does while
/// attempting candidate `idx` is what the run does there.
pub proof fn lemma_run_unfolds(idx: int, fail_fast: bool, outcomes: Seq<bool>)
    requires
        0 <= idx < outcomes.len(),
        idx < usize::MAX,
    ensures
        spec_run_from(idx, fail_fast, outcomes) == (match spec_record(
            Phase::Attempting { idx: idx as usize },
            outcomes[idx],
            fail_fast,
            outcomes.len(),
        ) {
            Phase::Attempting { idx: next } => spec_run_from(next as int, fail_fast, outcomes),
            p => p,
        }),
{
}

/// Orchestration state: the attempt order, the fail-fast policy, and the
/// phase reached so far.
pub struct Orchestrator {
    order: Vec<String>,
    fail_fast: bool,
    phase: Phase,
}

impl Orchestrator {
    /// The remotes to attempt, in order.
    pub closed spec fn spec_order(&self) -> Seq<Seq<char>> {
        self.order.deep_view()
    }

    /// The fail-fast policy of this run.
    pub closed spec fn spec_fail_fast(&self) -> bool {
        self.fail_fast
    }

    /// The phase reached so far.
    pub closed spec fn spec_phase(&self) -> Phase {
        self.phase
    }

    /// Any index the phase carries lies in the attempt order.
    pub open spec fn wf(&self) -> bool {
        match self.spec_phase() {
            Phase::Attempting { idx } => idx < self.spec_order().len(),
            Phase::Succeeded { idx } => idx < self.spec_order().len(),
            Phase::FailedFast { idx } => idx < self.spec_order().len(),
            _ => true,
        }
    }

    /// A fresh run over `order`: nothing attempted yet.
    pub fn new(order: Vec<String>, fail_fast: bool) -> (r: Self)
        ensures
            r.spec_order() == order.deep_view(),
            r.spec_fail_fast() == fail_fast,
            r.spec_phase() == Phase::Pending,
            r.wf(),
    {
        Orchestrator { order, fail_fast, phase: Phase::Pending }
    }

    /// Move from `Pending` to the first attempt, or straight to
    /// `ExhaustedAllFailed` when the order is empty.
    pub fn start(&mut self)
        requires
            old(self).spec_phase() == Phase::Pending,
        ensures
            final(self).spec_order() == old(self).spec_order(),
            final(self).spec_fail_fast() == old(self).spec_fail_fast(),
            final(self).spec_phase() == (if old(self).spec_order().len() > 0 {
                Phase::Attempting { idx: 0 }
            } else {
                Phase::ExhaustedAllFailed
            }),
            final(self).wf(),
    {
        if self.order.len() > 0 {
            self.phase = Phase::Attempting { idx: 0 };
        } else {
            self.phase = Phase::ExhaustedAllFailed;
        }
    }

    /// The remote currently being attempted.
    pub fn current_remote(&self) -> (r: &String)
        requires
            self.wf(),
            self.spec_phase() matches Phase::Attempting { idx },
        ensures
            self.spec_phase() matches Phase::Attempting { idx } && r@ == self.spec_order()[
                idx as int
            ],
    {
        match self.phase {
            Phase::Attempting { idx } => &self.order[idx],
            _ => unreached(),
        }
    }

    /// Record the outcome of the current attempt: exactly `spec_record`.
    pub fn record(&mut self, success: bool)
        requires
            old(self).wf(),
            old(self).spec_phase() matches Phase::Attempting { .. },
        ensures
            final(self).spec_order() == old(self).spec_order(),
            final(self).spec_fail_fast() == old(self).spec_fail_fast(),
            final(self).spec_phase() == spec_record(
                old(self).spec_phase(),
                success,
                old(self).spec_fail_fast(),
                old(self).spec_order().len(),
            ),
            final(self).wf(),
    {
        match self.phase {
            Phase::Attempting { idx } => {
                let n = self.order.len();
                proof {
                    assert(idx < n);
                }
                if success {
                    self.phase = Phase::Succeeded { idx };
                } else if self.fail_fast {
                    self.phase = Phase::FailedFast { idx };
                } else if idx + 1 < n {
                    self.phase = Phase::Attempting { idx: idx + 1 };
                } else {
                    self.phase = Phase::ExhaustedAllFailed;
                }
            },
            _ => {},
        }
    }

    /// The phase reached so far.
    pub fn phase(&self) -> (r: Phase)
        ensures
            r == self.spec_phase(),
    {
        self.phase
    }

    /// The error a failed run ends with: the failing remote under
    /// fail-fast, or every attempted candidate when the order is exhausted.
    pub fn failure_error(&self, branch: &str) -> (r: Error)
        requires
            self.wf(),
            self.spec_phase() matches Phase::FailedFast { .. } || self.spec_phase()
                == Phase::ExhaustedAllFailed,
        ensures
            (match self.spec_phase() {
                Phase::FailedFast { idx } => r matches Error::PushFailed { remote } && remote@
                    == self.spec_order()[idx as int],
                _ => r matches Error::AllRemotesFailed { branch: b, attempted } && b@ == branch@
                    && attempted.deep_view() == self.spec_order(),
            }),
    {
        match self.phase {
            Phase::FailedFast { idx } => Error::PushFailed { remote: self.order[idx].clone() },
            _ => {
                let attempted = clone_names(&self.order);
                Error::AllRemotesFailed { branch: branch.to_owned(), attempted }
            },
        }
    }
}

/// Under fail-fast a run is decided by the first candidate alone: a single
/// failure ends the run at once, with no further attempts.
pub proof fn lemma_fail_fast_stops_at_first_failure(outcomes: Seq<bool>)
    requires
        outcomes.len() > 0,
    ensures
        !outcomes[0] ==> spec_run_from(0, true, outcomes) == (Phase::FailedFast { idx: 0 }),
        outcomes[0] ==> spec_run_from(0, true, outcomes) == (Phase::Succeeded { idx: 0 }),
{
}

/// The run halts at the first successful candidate and pushes to no
/// candidate after it. Under fail-fast the first candidate must be the
/// successful one, since any earlier failure already ends the run.
pub proof fn lemma_halts_at_first_success(k: int, fail_fast: bool, outcomes: Seq<bool>)
    requires
        0 <= k < outcomes.len(),
        outcomes[k],
        forall|j: int| 0 <= j < k ==> !outcomes[j],
        fail_fast ==> k == 0,
    ensures
        spec_run_from(0, fail_fast, outcomes) == (Phase::Succeeded { idx: k as usize }),
{
    lemma_run_shift(0, k, fail_fast, outcomes);
}

/// Reaching a later candidate does not depend on how the run got there:
/// from position `i` the run inspects positions `i` onward only. Stated by
/// unrolling the run from `i` up to `k`.
proof fn lemma_run_shift(i: int, k: int, fail_fast: bool, outcomes: Seq<bool>)
    requires
        0 <= i <= k < outcomes.len(),
        outcomes[k],
        forall|j: int| i <= j < k ==> !outcomes[j],
        fail_fast ==> k == i,
    ensures
        spec_run_from(i, fail_fast, outcomes) == (Phase::Succeeded { idx: k as usize }),
    decreases k - i,
{
    if i < k {
        lemma_run_shift(i + 1, k, fail_fast, outcomes);
    }
}

/// Without fail-fast a failure on one candidate is followed by an attempt
/// on the next: the run from a failing candidate is the run from its
/// successor.
pub proof fn lemma_failure_continues(n: int, outcomes: Seq<bool>)
    requires
        0 <= n,
        n + 1 < outcomes.len(),
        !outcomes[n],
    ensures
        spec_run_from(n, false, outcomes) == spec_run_from(n + 1, false, outcomes),
{
}

/// Without fail-fast the run fails only when every candidate fails, and
/// then by exhausting the order.
pub proof fn lemma_fails_only_when_all_fail(outcomes: Seq<bool>)
    requires
        outcomes.len() > 0,
    ensures
        (forall|j: int| 0 <= j < outcomes.len() ==> !outcomes[j]) <==> spec_run_from(
            0,
            false,
            outcomes,
        ) == Phase::ExhaustedAllFailed,
{
    if forall|j: int| 0 <= j < outcomes.len() ==> !outcomes[j] {
        lemma_all_fail_from(0, outcomes);
    } else {
        let k = choose|k: int| 0 <= k < outcomes.len() && outcomes[k];
        let first = min_success(k, outcomes);
        lemma_min_success(k, outcomes);
        lemma_halts_at_first_success(first, false, outcomes);
    }
}

/// The least successful index at or below a known successful one.
spec fn min_success(k: int, outcomes: Seq<bool>) -> int
    decreases k,
{
    if exists|j: int| 0 <= j < k && outcomes[j] {
        let w = choose|j: int| 0 <= j < k && outcomes[j];
        min_success(w, outcomes)
    } else {
        k
    }
}

proof fn lemma_min_success(k: int, outcomes: Seq<bool>)
    requires
        0 <= k < outcomes.len(),
        outcomes[k],
    ensures
        0 <= min_success(k, outcomes) <= k,
        outcomes[min_success(k, outcomes)],
        forall|j: int| 0 <= j < min_success(k, outcomes) ==> !outcomes[j],
    decreases k,
{
    if exists|j: int| 0 <= j < k && outcomes[j] {
        let w = choose|j: int| 0 <= j < k && outcomes[j];
        lemma_min_success(w, outcomes);
    }
}

proof fn lemma_all_fail_from(i: int, outcomes: Seq<bool>)
    requires
        0 <= i < outcomes.len(),
        forall|j: int| i <= j < outcomes.len() ==> !outcomes[j],
    ensures
        spec_run_from(i, false, outcomes) == Phase::ExhaustedAllFailed,
    decreases outcomes.len() - i,
{
    if i + 1 < outcomes.len() {
        lemma_all_fail_from(i + 1, outcomes);
    }
}

} // verus!
