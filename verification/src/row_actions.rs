//! The device panel's row actions: of everything the user clicked in one
//! frame, which action runs, what it does to the state and the issue list,
//! which edit buffers it invalidates, what the user is told, and which worker
//! it starts.

use vstd::prelude::*;
use crate::dibl_refinement::{
    attach_plan as dibl_attach_plan, clear_plan as dibl_clear_plan, DiblRefinementPlan,
    DiblRefinementPurpose,
};
use crate::issues::{keeps_other, IngestIssues};
use crate::models::{model_at, FitModel};
use crate::modelfit::{
    any_checked, count_set, keep_mask, kept, remapped_selection, removal_mask, ModelFitState,
};
use crate::output_refinement::{
    attach_plan as output_attach_plan, clear_plan as output_clear_plan, OutputRefinementPlan,
    OutputRefinementPurpose,
};

verus! {

/// Everything the user asked of the device panel in one frame.
pub struct RowActions {
    pub select: Option<usize>,
    pub toggle: Option<(usize, bool)>,
    pub remove_selected_or_checked: bool,
    pub keep_checked: bool,
    pub clear_all: bool,
    pub dismiss_error: Option<String>,
    pub attach_pending_output: Option<usize>,
    pub remove_pending_output: Option<usize>,
    pub attach_pending_dibl: Option<usize>,
    pub remove_pending_dibl: Option<usize>,
    pub detach_output: Option<usize>,
    pub detach_dibl: Option<usize>,
    pub remove_attached_output: Option<usize>,
    pub remove_attached_dibl: Option<usize>,
}

/// The one action that runs, in order of precedence; row edits (dismiss,
/// tick, select) run together when nothing else was asked.
pub enum RowAction {
    ClearAll,
    RemoveSelectedOrChecked,
    KeepChecked,
    RemoveAttachedOutput(usize),
    RemoveAttachedDibl(usize),
    DetachDibl(usize),
    DetachOutput(usize),
    AttachPendingOutput(usize),
    AttachPendingDibl(usize),
    RemovePendingOutput(usize),
    RemovePendingDibl(usize),
    RowEdits,
}

pub open spec fn chosen_action(a: RowActions) -> RowAction {
    if a.clear_all {
        RowAction::ClearAll
    } else if a.remove_selected_or_checked {
        RowAction::RemoveSelectedOrChecked
    } else if a.keep_checked {
        RowAction::KeepChecked
    } else if a.remove_attached_output is Some {
        RowAction::RemoveAttachedOutput(a.remove_attached_output.unwrap())
    } else if a.remove_attached_dibl is Some {
        RowAction::RemoveAttachedDibl(a.remove_attached_dibl.unwrap())
    } else if a.detach_dibl is Some {
        RowAction::DetachDibl(a.detach_dibl.unwrap())
    } else if a.detach_output is Some {
        RowAction::DetachOutput(a.detach_output.unwrap())
    } else if a.attach_pending_output is Some {
        RowAction::AttachPendingOutput(a.attach_pending_output.unwrap())
    } else if a.attach_pending_dibl is Some {
        RowAction::AttachPendingDibl(a.attach_pending_dibl.unwrap())
    } else if a.remove_pending_output is Some {
        RowAction::RemovePendingOutput(a.remove_pending_output.unwrap())
    } else if a.remove_pending_dibl is Some {
        RowAction::RemovePendingDibl(a.remove_pending_dibl.unwrap())
    } else {
        RowAction::RowEdits
    }
}

/// Which edit buffers an action makes stale.
#[derive(Clone, Copy, Debug, PartialEq, Eq, Structural)]
pub enum EditsToForget {
    Nothing,
    /// The parameter fields of the selected device.
    Parameters,
    /// Every per-device field: parameters and geometry.
    DeviceFields,
}

/// What the user is told about an action.
#[derive(Clone, Copy, Debug, PartialEq, Eq, Structural)]
pub enum ActionNotice {
    Nothing,
    /// Everything was cleared: how many devices, pending measurements and issues.
    Cleared { devices: usize, pending_outputs: usize, pending_dibls: usize, issues: usize },
    RemovedDevices(usize),
    NoDevicesSelected,
    CheckDevicesFirst,
    RemovedPendingOutput,
    RemovedPendingDibl,
}

/// The worker an action starts, with its plan.
pub enum WorkerStart<D, C, T> {
    Nothing,
    Output(OutputRefinementPlan<D, C>),
    Dibl(DiblRefinementPlan<D, T>),
}

pub struct RowActionOutcome<D, C, T> {
    pub forget: EditsToForget,
    pub notice: ActionNotice,
    pub start: WorkerStart<D, C, T>,
}

/// A worker start plans `purpose` for one job on row `r` with one operation.
pub open spec fn output_start<D, C, T>(s: WorkerStart<D, C, T>, purpose: OutputRefinementPurpose) -> bool {
    s matches WorkerStart::Output(p) && p.purpose == purpose && p.jobs@.len() == 1
}

pub open spec fn dibl_start<D, C, T>(s: WorkerStart<D, C, T>, purpose: DiblRefinementPurpose) -> bool {
    s matches WorkerStart::Dibl(p) && p.purpose == purpose && p.jobs@.len() == 1
}

impl<D: Clone, C: Clone, T: Clone> ModelFitState<D, C, T> {
    /// Runs the one action the frame asked for (see [`chosen_action`]).
    /// Clearing also empties the issue list; a removal that removes nothing is
    /// reported; the plan of a clear, detach or attachment is handed back for a
    /// worker, with nothing changed yet.
    pub fn apply_row_actions(&mut self, issues: &mut IngestIssues, actions: RowActions) -> (r:
        RowActionOutcome<D, C, T>)
        requires
            old(self).wf(),
            old(issues).wf(),
        ensures
            final(self).wf(),
            final(issues).wf(),
            final(self).next_id() == old(self).next_id(),
            final(self).model_index() == old(self).model_index(),
            !(chosen_action(actions) is ClearAll || chosen_action(actions) is RowEdits) ==> *final(issues)
                == *old(issues),
            !(chosen_action(actions) is RowEdits) ==> r.forget == (match chosen_action(actions) {
                RowAction::ClearAll => EditsToForget::DeviceFields,
                RowAction::RemoveSelectedOrChecked => if count_set(
                    removal_mask(old(self).rows(), old(self).selection()),
                    old(self).rows().len() as int,
                ) > 0 {
                    EditsToForget::DeviceFields
                } else {
                    EditsToForget::Nothing
                },
                RowAction::KeepChecked => if any_checked(old(self).rows()) && count_set(
                    keep_mask(old(self).rows()),
                    old(self).rows().len() as int,
                ) > 0 {
                    EditsToForget::DeviceFields
                } else {
                    EditsToForget::Nothing
                },
                RowAction::RemovePendingOutput(_) => EditsToForget::Nothing,
                RowAction::RemovePendingDibl(_) => EditsToForget::Nothing,
                _ => EditsToForget::Parameters,
            }),
            match chosen_action(actions) {
                RowAction::ClearAll => {
                    &&& final(self).rows().len() == 0
                    &&& final(self).outputs().len() == 0
                    &&& final(self).dibls().len() == 0
                    &&& final(self).selection() is None
                    &&& final(issues).rows_view().len() == 0
                    &&& r.notice == if old(self).rows().len() > 0 || old(self).outputs().len() > 0
                        || old(self).dibls().len() > 0 || old(issues).rows_view().len() > 0 {
                        ActionNotice::Cleared {
                            devices: old(self).rows().len() as usize,
                            pending_outputs: old(self).outputs().len() as usize,
                            pending_dibls: old(self).dibls().len() as usize,
                            issues: old(issues).rows_view().len() as usize,
                        }
                    } else {
                        ActionNotice::Nothing
                    }
                    &&& r.start is Nothing
                },
                RowAction::RemoveSelectedOrChecked => {
                    let mask = removal_mask(old(self).rows(), old(self).selection());
                    let n = count_set(mask, old(self).rows().len() as int);
                    &&& final(self).rows() == kept(old(self).rows(), mask)
                    &&& final(self).selection() == if n == 0 {
                        old(self).selection()
                    } else {
                        remapped_selection(old(self).selection(), mask)
                    }
                    &&& final(self).outputs() == old(self).outputs()
                    &&& final(self).dibls() == old(self).dibls()
                    &&& r.notice == if n > 0 {
                        ActionNotice::RemovedDevices(n as usize)
                    } else {
                        ActionNotice::NoDevicesSelected
                    }
                    &&& r.start is Nothing
                },
                RowAction::KeepChecked => {
                    let mask = keep_mask(old(self).rows());
                    let n = count_set(mask, old(self).rows().len() as int);
                    &&& final(self).outputs() == old(self).outputs()
                    &&& final(self).dibls() == old(self).dibls()
                    &&& !any_checked(old(self).rows()) ==> final(self).rows() == old(self).rows()
                        && final(self).selection() == old(self).selection() && r.notice
                        == ActionNotice::CheckDevicesFirst
                    &&& any_checked(old(self).rows()) ==> final(self).rows() == kept(old(self).rows(), mask)
                        && final(self).selection() == (if n == 0 {
                        old(self).selection()
                    } else {
                        remapped_selection(old(self).selection(), mask)
                    }) && r.notice == (if n > 0 {
                        ActionNotice::RemovedDevices(n as usize)
                    } else {
                        ActionNotice::Nothing
                    })
                    &&& r.start is Nothing
                },
                RowAction::RemoveAttachedOutput(i) => {
                    &&& *final(self) == *old(self)
                    &&& r.notice == ActionNotice::Nothing
                    &&& (output_start(r.start, OutputRefinementPurpose::Remove) <==> (i < old(self).rows().len()
                        && old(self).rows()[i as int].science_spec().has_output()))
                    &&& (r.start is Nothing <==> !output_start(r.start, OutputRefinementPurpose::Remove))
                    &&& r.start matches WorkerStart::Output(p) ==> output_clear_plan(p, old(self).rows(), i as int, OutputRefinementPurpose::Remove)
                },
                RowAction::DetachOutput(i) => {
                    &&& *final(self) == *old(self)
                    &&& r.notice == ActionNotice::Nothing
                    &&& (output_start(r.start, OutputRefinementPurpose::Detach) <==> (i < old(self).rows().len()
                        && old(self).rows()[i as int].science_spec().has_output()))
                    &&& (r.start is Nothing <==> !output_start(r.start, OutputRefinementPurpose::Detach))
                    &&& r.start matches WorkerStart::Output(p) ==> output_clear_plan(p, old(self).rows(), i as int, OutputRefinementPurpose::Detach)
                },
                RowAction::RemoveAttachedDibl(i) => {
                    &&& *final(self) == *old(self)
                    &&& r.notice == ActionNotice::Nothing
                    &&& (dibl_start(r.start, DiblRefinementPurpose::Remove) <==> (i < old(self).rows().len()
                        && old(self).rows()[i as int].science_spec().has_second()))
                    &&& (r.start is Nothing <==> !dibl_start(r.start, DiblRefinementPurpose::Remove))
                    &&& r.start matches WorkerStart::Dibl(p) ==> dibl_clear_plan(p, old(self).rows(), i as int, DiblRefinementPurpose::Remove)
                },
                RowAction::DetachDibl(i) => {
                    &&& *final(self) == *old(self)
                    &&& r.notice == ActionNotice::Nothing
                    &&& (dibl_start(r.start, DiblRefinementPurpose::Detach) <==> (i < old(self).rows().len()
                        && old(self).rows()[i as int].science_spec().has_second()))
                    &&& (r.start is Nothing <==> !dibl_start(r.start, DiblRefinementPurpose::Detach))
                    &&& r.start matches WorkerStart::Dibl(p) ==> dibl_clear_plan(p, old(self).rows(), i as int, DiblRefinementPurpose::Detach)
                },
                RowAction::AttachPendingOutput(i) => {
                    &&& *final(self) == *old(self)
                    &&& r.notice == ActionNotice::Nothing
                    &&& (output_start(r.start, OutputRefinementPurpose::AttachPending) <==> (old(self).selection() is Some
                        && i < old(self).outputs().len()))
                    &&& (r.start is Nothing <==> !output_start(r.start, OutputRefinementPurpose::AttachPending))
                    &&& r.start matches WorkerStart::Output(p) ==> output_attach_plan(
                        p,
                        old(self).rows(),
                        old(self).outputs(),
                        old(self).selection().unwrap() as int,
                        i as int,
                    )
                },
                RowAction::AttachPendingDibl(i) => {
                    &&& *final(self) == *old(self)
                    &&& r.notice == ActionNotice::Nothing
                    &&& (dibl_start(r.start, DiblRefinementPurpose::AttachPending) <==> (old(self).selection() is Some
                        && i < old(self).dibls().len()))
                    &&& (r.start is Nothing <==> !dibl_start(r.start, DiblRefinementPurpose::AttachPending))
                    &&& r.start matches WorkerStart::Dibl(p) ==> dibl_attach_plan(
                        p,
                        old(self).rows(),
                        old(self).dibls(),
                        old(self).selection().unwrap() as int,
                        i as int,
                    )
                },
                RowAction::RemovePendingOutput(i) => {
                    &&& final(self).rows() == old(self).rows()
                    &&& final(self).selection() == old(self).selection()
                    &&& final(self).dibls() == old(self).dibls()
                    &&& final(self).outputs() == if i < old(self).outputs().len() {
                        old(self).outputs().remove(i as int)
                    } else {
                        old(self).outputs()
                    }
                    &&& r.notice == if i < old(self).outputs().len() {
                        ActionNotice::RemovedPendingOutput
                    } else {
                        ActionNotice::Nothing
                    }
                    &&& r.start is Nothing
                },
                RowAction::RemovePendingDibl(i) => {
                    &&& final(self).rows() == old(self).rows()
                    &&& final(self).selection() == old(self).selection()
                    &&& final(self).outputs() == old(self).outputs()
                    &&& final(self).dibls() == if i < old(self).dibls().len() {
                        old(self).dibls().remove(i as int)
                    } else {
                        old(self).dibls()
                    }
                    &&& r.notice == if i < old(self).dibls().len() {
                        ActionNotice::RemovedPendingDibl
                    } else {
                        ActionNotice::Nothing
                    }
                    &&& r.start is Nothing
                },
                RowAction::RowEdits => {
                    &&& r.notice == ActionNotice::Nothing
                    &&& r.start is Nothing
                    &&& final(issues).rows_view() == match actions.dismiss_error {
                        Some(id) => old(issues).rows_view().filter(keeps_other(id@)),
                        None => old(issues).rows_view(),
                    }
                    &&& final(issues).next_number() == old(issues).next_number()
                    &&& final(self).rows().len() == old(self).rows().len()
                    &&& forall|k: int|
                        0 <= k < old(self).rows().len() ==> {
                            &&& (#[trigger] final(self).rows()[k]).id_val() == old(self).rows()[k].id_val()
                            &&& final(self).rows()[k].revision_val() == old(self).rows()[k].revision_val()
                            &&& final(self).rows()[k].science_spec() == old(self).rows()[k].science_spec()
                            &&& final(self).rows()[k].checked_val() == match actions.toggle {
                                Some((t, c)) => if k == t {
                                    c
                                } else {
                                    old(self).rows()[k].checked_val()
                                },
                                None => old(self).rows()[k].checked_val(),
                            }
                        }
                    &&& final(self).selection() == match actions.select {
                        Some(s) => if s < old(self).rows().len() {
                            Some(s)
                        } else {
                            old(self).selection()
                        },
                        None => old(self).selection(),
                    }
                    &&& r.forget == match actions.select {
                        Some(s) => if old(self).selection() != Some(s) {
                            EditsToForget::DeviceFields
                        } else {
                            EditsToForget::Nothing
                        },
                        None => EditsToForget::Nothing,
                    }
                    &&& final(self).outputs() == old(self).outputs()
                    &&& final(self).dibls() == old(self).dibls()
                },
            },
    {
        let none = WorkerStart::Nothing;
        if actions.clear_all {
            let devices = self.device_count();
            let pending_outputs = self.pending_outputs().len();
            let pending_dibls = self.pending_dibls().len();
            let cleared = issues.clear();
            self.clear();
            let notice = if devices > 0 || pending_outputs > 0 || pending_dibls > 0 || cleared > 0 {
                ActionNotice::Cleared { devices, pending_outputs, pending_dibls, issues: cleared }
            } else {
                ActionNotice::Nothing
            };
            return RowActionOutcome { forget: EditsToForget::DeviceFields, notice, start: none };
        }
        if actions.remove_selected_or_checked {
            let removed = self.remove_selected_or_checked();
            if removed > 0 {
                return RowActionOutcome {
                    forget: EditsToForget::DeviceFields,
                    notice: ActionNotice::RemovedDevices(removed),
                    start: none,
                };
            }
            return RowActionOutcome {
                forget: EditsToForget::Nothing,
                notice: ActionNotice::NoDevicesSelected,
                start: none,
            };
        }
        if actions.keep_checked {
            return match self.keep_checked_devices() {
                Some(removed) => if removed > 0 {
                    RowActionOutcome {
                        forget: EditsToForget::DeviceFields,
                        notice: ActionNotice::RemovedDevices(removed),
                        start: none,
                    }
                } else {
                    RowActionOutcome { forget: EditsToForget::Nothing, notice: ActionNotice::Nothing, start: none }
                },
                None => RowActionOutcome {
                    forget: EditsToForget::Nothing,
                    notice: ActionNotice::CheckDevicesFirst,
                    start: none,
                },
            };
        }
        if let Some(idx) = actions.remove_attached_output {
            let start = match self.plan_output_clear(idx, OutputRefinementPurpose::Remove) {
                Some(plan) => WorkerStart::Output(plan),
                None => none,
            };
            return RowActionOutcome { forget: EditsToForget::Parameters, notice: ActionNotice::Nothing, start };
        }
        if let Some(idx) = actions.remove_attached_dibl {
            let start = match self.plan_dibl_clear(idx, DiblRefinementPurpose::Remove) {
                Some(plan) => WorkerStart::Dibl(plan),
                None => none,
            };
            return RowActionOutcome { forget: EditsToForget::Parameters, notice: ActionNotice::Nothing, start };
        }
        if let Some(idx) = actions.detach_dibl {
            let start = match self.plan_dibl_clear(idx, DiblRefinementPurpose::Detach) {
                Some(plan) => WorkerStart::Dibl(plan),
                None => none,
            };
            return RowActionOutcome { forget: EditsToForget::Parameters, notice: ActionNotice::Nothing, start };
        }
        if let Some(idx) = actions.detach_output {
            let start = match self.plan_output_clear(idx, OutputRefinementPurpose::Detach) {
                Some(plan) => WorkerStart::Output(plan),
                None => none,
            };
            return RowActionOutcome { forget: EditsToForget::Parameters, notice: ActionNotice::Nothing, start };
        }
        if let Some(idx) = actions.attach_pending_output {
            let start = match self.plan_pending_output_attach(idx) {
                Some(plan) => WorkerStart::Output(plan),
                None => none,
            };
            return RowActionOutcome { forget: EditsToForget::Parameters, notice: ActionNotice::Nothing, start };
        }
        if let Some(idx) = actions.attach_pending_dibl {
            let start = match self.plan_pending_dibl_attach(idx) {
                Some(plan) => WorkerStart::Dibl(plan),
                None => none,
            };
            return RowActionOutcome { forget: EditsToForget::Parameters, notice: ActionNotice::Nothing, start };
        }
        if let Some(idx) = actions.remove_pending_output {
            let notice = if self.remove_pending_output(idx) {
                ActionNotice::RemovedPendingOutput
            } else {
                ActionNotice::Nothing
            };
            return RowActionOutcome { forget: EditsToForget::Nothing, notice, start: none };
        }
        if let Some(idx) = actions.remove_pending_dibl {
            let notice = if self.remove_pending_dibl(idx) {
                ActionNotice::RemovedPendingDibl
            } else {
                ActionNotice::Nothing
            };
            return RowActionOutcome { forget: EditsToForget::Nothing, notice, start: none };
        }
        if let Some(id) = &actions.dismiss_error {
            issues.dismiss(id.as_str());
        }
        if let Some((idx, checked)) = actions.toggle {
            self.set_device_checked(idx, checked);
        }
        let mut forget = EditsToForget::Nothing;
        if let Some(idx) = actions.select {
            let changes = match self.selected_index() {
                Some(current) => current != idx,
                None => true,
            };
            if changes {
                forget = EditsToForget::DeviceFields;
            }
            self.select(idx);
        }
        RowActionOutcome { forget, notice: ActionNotice::Nothing, start: none }
    }
}

/// Which of the device panel's controls can be used, and the remove
/// button's label.
#[derive(Clone, Copy, Debug, PartialEq, Eq)]
pub struct PanelControls {
    pub remove_label: &'static str,
    pub can_remove: bool,
    pub can_clear: bool,
    pub can_keep_checked: bool,
    pub can_attach_pending_output: bool,
    pub can_attach_pending_dibl: bool,
    pub can_load_dibl: bool,
    pub can_load_cv: bool,
}

pub open spec fn any_unchecked<D>(rows: Seq<crate::modelfit::DeviceEntry<D>>) -> bool {
    exists|j: int| 0 <= j < rows.len() && !(#[trigger] rows[j]).checked_val()
}

impl<D, C, T> ModelFitState<D, C, T> {
    /// The device panel's controls while workers are `idle` (when not, no
    /// action can start): removing needs a row, and removes the checked rows
    /// when there are any; clearing needs more than one row, an issue or a
    /// pending measurement; keeping the checked rows needs both checked and
    /// unchecked rows; attaching a pending measurement needs a selection, and
    /// a pending DIBL measurement also the Level 62 model; loading a C-V file
    /// needs a row, and loading DIBL files also the Level 62 model.
    pub fn panel_controls(&self, issues: &IngestIssues, idle: bool) -> (r: PanelControls)
        requires
            self.wf(),
        ensures
            r.remove_label@ == if any_checked(self.rows()) {
                "Remove Checked"@
            } else {
                "Remove Selected"@
            },
            r.can_remove == (idle && self.rows().len() > 0),
            r.can_clear == (idle && (self.rows().len() > 1 || issues.rows_view().len() > 0
                || self.outputs().len() > 0 || self.dibls().len() > 0)),
            r.can_keep_checked == (idle && any_checked(self.rows()) && any_unchecked(self.rows())),
            r.can_attach_pending_output == (idle && self.selection() is Some),
            r.can_attach_pending_dibl == (idle && self.selection() is Some && model_at(
                self.model_index() as int,
            ) == FitModel::Level62),
            r.can_load_dibl == (idle && self.rows().len() > 0 && model_at(self.model_index() as int)
                == FitModel::Level62),
            r.can_load_cv == (idle && self.rows().len() > 0),
    {
        let has_checked = self.has_checked_devices();
        let has_unchecked = self.has_unchecked_devices();
        let has_pending = self.pending_outputs().len() > 0 || self.pending_dibls().len() > 0;
        let selected = self.selected_index().is_some();
        PanelControls {
            remove_label: if has_checked {
                "Remove Checked"
            } else {
                "Remove Selected"
            },
            can_remove: idle && !self.is_empty(),
            can_clear: idle && (self.device_count() > 1 || issues.has_errors() || has_pending),
            can_keep_checked: idle && has_checked && has_unchecked,
            can_attach_pending_output: idle && selected,
            can_attach_pending_dibl: idle && selected && self.selected_model_is_level62(),
            can_load_dibl: idle && !self.is_empty() && self.selected_model_is_level62(),
            can_load_cv: idle && !self.is_empty(),
        }
    }
}

} // verus!
