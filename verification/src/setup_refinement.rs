//! Geometry, drain-bias and auto-fit reset of the selected device: the plan
//! that captures the row, and the commit that applies the worker's science
//! only while the row keeps the identity and revision the plan captured.
//!
//! The operation itself (`O`) and the science library's refusal (`E`) are
//! carried through unread; the library's calls run outside this module.

use vstd::prelude::*;
use crate::modelfit::{
    token_live, live_index, DeviceScience, DeviceToken, ModelFitState, SelectedMutationError,
};
use crate::text::owned;

verus! {

#[derive(Clone, Copy, Debug, PartialEq, Eq, Structural)]
pub enum SetupRefinementPurpose {
    Geometry,
    DrainBias,
    Reset,
}

/// The worker's input: the selected row's token and a copy of its science.
pub struct SetupRefinementPlan<D, O> {
    pub token: DeviceToken,
    pub device_name: String,
    pub science: DeviceScience<D>,
    pub operation: O,
}

/// The worker's result: the new science, or the library's refusal.
pub struct SetupRefinementResult<D, E> {
    pub token: DeviceToken,
    pub device_name: String,
    pub purpose: SetupRefinementPurpose,
    pub result: Result<DeviceScience<D>, E>,
}

pub enum SetupCommitOutcome<E> {
    Applied,
    Rejected(E),
    Stale,
}

pub struct SetupCommitReport<E> {
    pub device_name: String,
    pub purpose: SetupRefinementPurpose,
    pub outcome: SetupCommitOutcome<E>,
}

impl<D: Clone, C, T> ModelFitState<D, C, T> {
    /// Plans `operation` on the selected row. `unchanged` says whether the
    /// operation leaves the selected device as it is (then nothing is
    /// planned). Refused without a selection.
    pub fn plan_selected_setup<O, I, E>(&self, operation: O, unchanged: bool) -> (r: Result<
        Option<SetupRefinementPlan<D, O>>,
        SelectedMutationError<I, E>,
    >)
        requires
            self.wf(),
        ensures
            r is Err <==> self.selection() is None,
            r matches Err(e) ==> e is NoDeviceSelected,
            r matches Ok(p) ==> (p is None <==> unchanged),
            r matches Ok(Some(p)) ==> {
                let e = self.rows()[self.selection().unwrap() as int];
                &&& p.token.id_val() == e.id_val()
                &&& p.token.revision_val() == e.revision_val()
                &&& p.device_name@ == e.science_spec().name()
                &&& p.science.agrees(&e.science_spec())
                &&& cloned(e.science_spec().device_spec(), p.science.device_spec())
                &&& p.science.wf()
                &&& p.operation == operation
            },
    {
        proof {
            self.lemma_wf_rows();
        }
        let sel = match self.selected_index() {
            Some(i) => i,
            None => {
                return Err(SelectedMutationError::NoDeviceSelected);
            },
        };
        if unchanged {
            return Ok(None);
        }
        let entry = &self.devices()[sel];
        Ok(
            Some(
                SetupRefinementPlan {
                    token: entry.token(),
                    device_name: owned(entry.science().name_str()),
                    science: entry.science().duplicate(),
                    operation,
                },
            ),
        )
    }
}

impl<D, C, T> ModelFitState<D, C, T> {
    /// Commits a finished setup refinement: stale when the captured row is
    /// gone or changed (nothing changes then, whatever the worker found);
    /// otherwise the new science is committed, or the refusal reported.
    pub fn commit_setup_refinement<E>(&mut self, result: SetupRefinementResult<D, E>) -> (r:
        SetupCommitReport<E>)
        requires
            old(self).wf(),
            result.result matches Ok(s) ==> s.wf(),
            result.result is Ok ==> result.token.revision_val() < u64::MAX,
        ensures
            final(self).wf(),
            r.device_name == result.device_name,
            r.purpose == result.purpose,
            r.outcome is Stale <==> !token_live(old(self).rows(), result.token),
            !token_live(old(self).rows(), result.token) ==> final(self).rows() == old(self).rows(),
            token_live(old(self).rows(), result.token) ==> match result.result {
                Ok(s) => {
                    let i = live_index(old(self).rows(), result.token);
                    &&& r.outcome is Applied
                    &&& final(self).rows() == old(self).rows().update(
                        i,
                        old(self).rows()[i].with_science(s),
                    )
                    &&& final(self).rows()[i].science_spec() == s
                    &&& final(self).rows()[i].id_val() == old(self).rows()[i].id_val()
                    &&& final(self).rows()[i].checked_val() == old(self).rows()[i].checked_val()
                    &&& final(self).rows()[i].revision_val() == old(self).rows()[i].revision_val() + 1
                },
                Err(e) => r.outcome == SetupCommitOutcome::Rejected(e) && final(self).rows()
                    == old(self).rows(),
            },
            final(self).outputs() == old(self).outputs(),
            final(self).dibls() == old(self).dibls(),
            final(self).selection() == old(self).selection(),
            final(self).model_index() == old(self).model_index(),
            final(self).next_id() == old(self).next_id(),
    {
        let SetupRefinementResult { token, device_name, purpose, result } = result;
        let idx = match self.current_index(token) {
            Some(i) => i,
            None => {
                return SetupCommitReport { device_name, purpose, outcome: SetupCommitOutcome::Stale };
            },
        };
        match result {
            Ok(science) => {
                proof {
                    let rows = self.rows();
                    assert(rows[idx as int].revision_val() == token.revision_val());
                    rows[idx as int].lemma_with_science(science);
                }
                self.commit_science_at(idx, science);
                SetupCommitReport { device_name, purpose, outcome: SetupCommitOutcome::Applied }
            },
            Err(e) => SetupCommitReport { device_name, purpose, outcome: SetupCommitOutcome::Rejected(e) },
        }
    }
}

} // verus!
