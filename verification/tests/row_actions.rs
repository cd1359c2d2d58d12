use paramex_gui::issues::IngestIssues;
use paramex_gui::modelfit::{CvCommitError, DeviceFacts, ModelFitState, PendingOutputReason, SelectedMutationError};
use paramex_gui::output_refinement::OutputRefinementPurpose;
use paramex_gui::models::LEVEL62_INDEX;
use paramex_gui::row_actions::{ActionNotice, EditsToForget, RowActions, WorkerStart};
use paramex_gui::source::{OutputSource, PrimaryTransferSource};

type State = ModelFitState<String, Vec<u32>, u32>;

fn add(state: &mut State, name: &str, with_output: bool) {
    let facts = DeviceFacts {
        name: name.to_string(),
        stem: name.to_string(),
        has_output_curves: with_output,
        has_second_transfer: false,
    };
    let output = if with_output {
        Some(OutputSource::new("out.csv", Some("lot/out.csv".into())).unwrap())
    } else {
        None
    };
    state
        .install_fitted_device(name.to_string(), facts, PrimaryTransferSource::new(name, None).unwrap(), output)
        .unwrap();
}

fn none() -> RowActions {
    RowActions {
        select: None,
        toggle: None,
        remove_selected_or_checked: false,
        keep_checked: false,
        clear_all: false,
        dismiss_error: None,
        attach_pending_output: None,
        remove_pending_output: None,
        attach_pending_dibl: None,
        remove_pending_dibl: None,
        detach_output: None,
        detach_dibl: None,
        remove_attached_output: None,
        remove_attached_dibl: None,
    }
}

#[test]
fn clear_all_wins_and_reports_what_went() {
    let mut state = State::new();
    let mut issues = IngestIssues::new();
    add(&mut state, "a", false);
    issues.record("x.csv".into(), "bad".into());
    let mut actions = none();
    actions.clear_all = true;
    actions.remove_selected_or_checked = true;
    let outcome = state.apply_row_actions(&mut issues, actions);
    assert_eq!(outcome.forget, EditsToForget::DeviceFields);
    assert_eq!(
        outcome.notice,
        ActionNotice::Cleared { devices: 1, pending_outputs: 0, pending_dibls: 0, issues: 1 }
    );
    assert!(state.is_empty());
    assert!(!issues.has_errors());

    let outcome = state.apply_row_actions(&mut issues, {
        let mut a = none();
        a.clear_all = true;
        a
    });
    assert_eq!(outcome.notice, ActionNotice::Nothing);
}

#[test]
fn remove_without_a_target_is_reported() {
    let mut state = State::new();
    let mut issues = IngestIssues::new();
    let mut actions = none();
    actions.remove_selected_or_checked = true;
    let outcome = state.apply_row_actions(&mut issues, actions);
    assert_eq!(outcome.notice, ActionNotice::NoDevicesSelected);
    assert_eq!(outcome.forget, EditsToForget::Nothing);

    add(&mut state, "a", false);
    add(&mut state, "b", false);
    let mut actions = none();
    actions.keep_checked = true;
    assert_eq!(state.apply_row_actions(&mut issues, actions).notice, ActionNotice::CheckDevicesFirst);
    assert!(state.set_device_checked(1, true));
    let mut actions = none();
    actions.keep_checked = true;
    let outcome = state.apply_row_actions(&mut issues, actions);
    assert_eq!(outcome.notice, ActionNotice::RemovedDevices(1));
    assert_eq!(state.devices()[0].transfer_name(), "b");
}

#[test]
fn detach_hands_back_a_plan_and_changes_nothing_yet() {
    let mut state = State::new();
    let mut issues = IngestIssues::new();
    add(&mut state, "a", true);
    let mut actions = none();
    actions.detach_output = Some(0);
    actions.select = Some(0);
    let outcome = state.apply_row_actions(&mut issues, actions);
    assert_eq!(outcome.forget, EditsToForget::Parameters);
    match outcome.start {
        WorkerStart::Output(plan) => {
            assert_eq!(plan.purpose, OutputRefinementPurpose::Detach);
            assert_eq!(plan.jobs.len(), 1);
        }
        _ => panic!("a detach starts an output worker"),
    }
    assert_eq!(state.devices()[0].output_name(), Some("out.csv"));

    let mut actions = none();
    actions.remove_attached_dibl = Some(0);
    assert!(matches!(state.apply_row_actions(&mut issues, actions).start, WorkerStart::Nothing));
}

#[test]
fn row_edits_run_together() {
    let mut state = State::new();
    let mut issues = IngestIssues::new();
    add(&mut state, "a", false);
    add(&mut state, "b", false);
    issues.record("x.csv".into(), "bad".into());
    state.add_pending_output(OutputSource::new("p.csv", None).unwrap(), vec![1], PendingOutputReason::NoMatch);
    let mut actions = none();
    actions.dismiss_error = Some("ingest-error-0".into());
    actions.toggle = Some((1, true));
    actions.select = Some(1);
    let outcome = state.apply_row_actions(&mut issues, actions);
    assert_eq!(outcome.forget, EditsToForget::DeviceFields);
    assert_eq!(outcome.notice, ActionNotice::Nothing);
    assert!(!issues.has_errors());
    assert!(state.devices()[1].is_checked());
    assert_eq!(state.selected_index(), Some(1));

    let mut actions = none();
    actions.select = Some(1);
    assert_eq!(state.apply_row_actions(&mut issues, actions).forget, EditsToForget::Nothing);

    let mut actions = none();
    actions.remove_pending_output = Some(0);
    assert_eq!(state.apply_row_actions(&mut issues, actions).notice, ActionNotice::RemovedPendingOutput);
    assert!(state.pending_outputs().is_empty());
}

#[test]
fn cv_results_follow_their_captured_row() {
    let mut state = State::new();
    assert_eq!(
        state.cv_target::<(), ()>(None),
        Err(CvCommitError::Mutation(SelectedMutationError::NoDeviceSelected))
    );
    add(&mut state, "a", false);
    add(&mut state, "b", false);
    state.select(1);
    let token = state.selected_token();
    assert!(state.remove_device(0));
    assert_eq!(state.cv_target::<(), ()>(token), Ok(0));
    assert!(state.commit_selected_device::<(), ()>("edited".to_string(), true).is_ok());
    assert_eq!(state.cv_target::<(), ()>(token), Err(CvCommitError::DeviceChanged));
}

#[test]
fn panel_controls_follow_rows_checks_selection_and_model() {
    let mut state = State::new();
    let mut issues = IngestIssues::new();
    let empty = state.panel_controls(&issues, true);
    assert!(!empty.can_load_cv && !empty.can_load_dibl);
    assert_eq!(empty.remove_label, "Remove Selected");
    assert!(!empty.can_remove && !empty.can_clear && !empty.can_keep_checked);
    assert!(!empty.can_attach_pending_output && !empty.can_attach_pending_dibl);

    add(&mut state, "a", false);
    let one = state.panel_controls(&issues, true);
    assert!(one.can_load_cv && !one.can_load_dibl);
    assert!(one.can_remove && !one.can_clear && one.can_attach_pending_output);
    assert!(!one.can_attach_pending_dibl);
    issues.record("x.csv".into(), "bad".into());
    assert!(state.panel_controls(&issues, true).can_clear);

    add(&mut state, "b", false);
    assert!(state.set_device_checked(0, true));
    let checked = state.panel_controls(&issues, true);
    assert_eq!(checked.remove_label, "Remove Checked");
    assert!(checked.can_keep_checked);
    assert!(state.set_selected_model(LEVEL62_INDEX));
    assert!(state.panel_controls(&issues, true).can_attach_pending_dibl);
    assert!(state.panel_controls(&issues, true).can_load_dibl);
    assert!(!state.panel_controls(&issues, false).can_load_dibl);

    let busy = state.panel_controls(&issues, false);
    assert_eq!(busy.remove_label, "Remove Checked");
    assert!(!busy.can_remove && !busy.can_clear && !busy.can_keep_checked);
    assert!(!busy.can_attach_pending_output && !busy.can_attach_pending_dibl);
}

#[test]
fn the_counters_that_number_rows_and_issues_advance_by_one() {
    let mut state = State::new();
    let mut issues = IngestIssues::new();
    assert_eq!(state.next_device_id(), 0);
    assert_eq!(issues.next_issue_number(), 0);
    add(&mut state, "a", false);
    issues.record("x.csv".into(), "bad".into());
    assert_eq!(state.next_device_id(), 1);
    assert_eq!(issues.next_issue_number(), 1);
    issues.clear();
    assert_eq!(issues.next_issue_number(), 1);
}

#[test]
fn attaching_a_pending_output_plans_the_clicked_row() {
    let mut state = State::new();
    let mut issues = IngestIssues::new();
    add(&mut state, "a", false);
    add(&mut state, "b", true);
    state.add_pending_output(
        OutputSource::new("first.csv", Some("lot/first.csv".into())).unwrap(),
        vec![1],
        PendingOutputReason::NoMatch,
    );
    state.add_pending_output(
        OutputSource::new("second.csv", Some("lot/second.csv".into())).unwrap(),
        vec![2],
        PendingOutputReason::NoMatch,
    );
    let mut actions = none();
    actions.attach_pending_output = Some(1);
    match state.apply_row_actions(&mut issues, actions).start {
        WorkerStart::Output(plan) => {
            assert_eq!(plan.purpose, OutputRefinementPurpose::AttachPending);
            assert_eq!(plan.jobs[0].device_name, "a");
            match &plan.jobs[0].operations[0] {
                paramex_gui::output_refinement::OutputOperation::Replace { import, .. } => {
                    assert_eq!(import.source.name(), "second.csv");
                    assert_eq!(import.curves, vec![2]);
                }
                _ => panic!("an attachment replaces"),
            }
        }
        _ => panic!("an attachment starts an output worker"),
    }

    let mut actions = none();
    actions.detach_output = Some(1);
    match state.apply_row_actions(&mut issues, actions).start {
        WorkerStart::Output(plan) => assert_eq!(plan.jobs[0].device_name, "b"),
        _ => panic!("a detach starts an output worker"),
    }
}
