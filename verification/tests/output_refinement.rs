use paramex_gui::dibl_refinement::{DiblImport, DiblJobRun, DiblOperation, DiblRefinementPlan, DiblRefinementResult};
use paramex_gui::modelfit::{
    DeviceFacts, DeviceInstallOutcome, ModelFitState, PendingOutput, PendingOutputReason,
};
use paramex_gui::output_refinement::{
    output_clear_error_message, output_imports_from_parsed, DeferredOutput, ParsedOutput,
    OUTPUT_SOURCE_NAME_MESSAGE, OutputDetachRefusal, OutputImport, OutputIssue,
    OutputJobRun, OutputOperation, OutputRefinementPlan, OutputRefinementPurpose,
    OutputRefinementRecovery, OutputRefinementResult,
    NO_OUTPUT_ATTACHED_MESSAGE, OUTPUT_CLEAR_DIBL_CONFLICT_MESSAGE, OUTPUT_DIBL_CONFLICT_MESSAGE,
    OUTPUT_STALE_MESSAGE,
};
use paramex_gui::dibl_refinement::DiblRefinementPurpose;
use paramex_gui::issues::IngestIssues;
use paramex_gui::notices::{output_failure_message, record_output_issues};
use paramex_gui::pending::PendingEffect;
use paramex_gui::source::{DiblSource, OutputSource, PrimaryTransferSource};

/// A stand-in for the science library's device: its output curves and
/// whether a DIBL measurement is retained.
#[derive(Clone, Debug, PartialEq)]
struct Dev {
    curves: Option<Vec<u32>>,
    retained_dibl: bool,
    vt: u32,
}

type State = ModelFitState<Dev, Vec<u32>, u32>;
type Plan = OutputRefinementPlan<Dev, Vec<u32>>;
type Outcome = OutputRefinementResult<Dev, Vec<u32>>;

fn stem(name: &str) -> String {
    let base = match name.rfind('.') {
        Some(dot) => &name[..dot],
        None => name,
    };
    base.to_lowercase().replace(['_', ' '], "-")
}

fn add(state: &mut State, name: &str) {
    let facts = DeviceFacts {
        name: name.to_string(),
        stem: stem(name),
        has_output_curves: false,
        has_second_transfer: false,
    };
    let device = Dev { curves: None, retained_dibl: false, vt: 1 };
    let primary = PrimaryTransferSource::new(name, None).unwrap();
    assert_eq!(
        state.install_fitted_device(device, facts, primary, None).unwrap(),
        DeviceInstallOutcome::Installed
    );
}

fn output(name: &str, path: &str) -> OutputImport<Vec<u32>> {
    OutputImport {
        source: OutputSource::new(name, Some(path.to_string())).unwrap(),
        curves: vec![4, 1],
    }
}

fn plan(state: &State, imports: Vec<OutputImport<Vec<u32>>>) -> Plan {
    let stems = imports.iter().map(|i| stem(i.source.name())).collect();
    state.plan_output_imports_with_issues(imports, stems, Vec::new())
}

/// Runs the worker against the stand-in library: curves with a zero conflict
/// with a retained DIBL measurement; curves of two points or fewer give no
/// output fit.
fn run(plan: Plan) -> Outcome {
    let OutputRefinementPlan { purpose, summary, jobs } = plan;
    let mut results = Vec::new();
    for job in jobs {
        let (mut job_run, operations) = OutputJobRun::start(job);
        for operation in operations {
            if !job_run.accepts_more() {
                break;
            }
            match operation {
                OutputOperation::Replace { ordinal, import } => {
                    let mut dev = job_run.science.device().clone();
                    if dev.retained_dibl && import.curves.contains(&0) {
                        job_run = job_run.replace_refused(ordinal, import);
                    } else {
                        let no_fit = import.curves.len() <= 2;
                        let displaced = dev.curves.replace(import.curves.clone()).unwrap_or_default();
                        job_run = job_run.replace_applied(ordinal, import, dev, true, no_fit, displaced);
                    }
                }
                OutputOperation::Clear { keep_pending } => {
                    let mut dev = job_run.science.device().clone();
                    if dev.retained_dibl {
                        job_run = job_run.clear_refused(OutputDetachRefusal::RetainedDiblNotApplied);
                    } else {
                        match dev.curves.take() {
                            Some(curves) => job_run = job_run.clear_applied(keep_pending, dev, curves),
                            None => job_run = job_run.clear_refused(OutputDetachRefusal::NoOutput),
                        }
                    }
                }
            }
        }
        results.push(job_run.finish());
    }
    OutputRefinementResult { purpose, summary, jobs: results }
}

fn pending_names(state: &State) -> Vec<String> {
    state.pending_outputs().iter().map(|p| p.name().to_string()).collect()
}

/// One device with output `dev_output.csv` (curves `1, 2, 3`) and a retained
/// DIBL measurement `dev_low.csv`.
fn state_with_output_and_dibl() -> (State, Vec<u32>) {
    let mut state = State::new();
    add(&mut state, "dev_transfer.csv");
    let mut attached = output("dev_output.csv", "lot/dev_output.csv");
    attached.curves = vec![1, 2, 3];
    state.commit_output_refinement(run(plan(&state, vec![attached])));
    let target = state.selected_device_id();
    let import = DiblImport {
        source: DiblSource::new("dev_low.csv", Some("lot/dev_low.csv".into())).unwrap(),
        second: 10u32,
    };
    let dibl_plan: DiblRefinementPlan<Dev, u32> =
        state.plan_dibl_refinement(vec![import], vec!["dev-low".to_string()], target, true, Vec::new());
    let DiblRefinementPlan { purpose, mode, jobs, summary } = dibl_plan;
    let mut results = Vec::new();
    for job in jobs {
        let (mut job_run, operations) = DiblJobRun::<Dev, u32, f64>::start(job);
        for operation in operations {
            if let DiblOperation::Replace { ordinal, import } = operation {
                let mut dev = job_run.science.device().clone();
                dev.retained_dibl = true;
                job_run = job_run.replace_fitted(ordinal, import, dev, 0.1, 1.0, None);
            }
        }
        results.push(job_run.finish());
    }
    let report = state.commit_dibl_refinement(DiblRefinementResult { purpose, mode, jobs: results, summary });
    assert!(report.action_succeeded);
    assert_eq!(state.selected_entry().unwrap().dibl_name(), Some("dev_low.csv"));
    (state, vec![1, 2, 3])
}

fn conflicting_output(mut curves: Vec<u32>) -> Vec<u32> {
    curves.insert(0, 0);
    curves
}

#[test]
fn retained_dibl_clear_error_uses_resolution_copy() {
    assert_eq!(
        output_clear_error_message(OutputDetachRefusal::RetainedDiblNotApplied),
        OUTPUT_CLEAR_DIBL_CONFLICT_MESSAGE
    );
    assert_eq!(output_clear_error_message(OutputDetachRefusal::NoOutput), NO_OUTPUT_ATTACHED_MESSAGE);
}

#[test]
fn output_files_pair_by_device_base_name() {
    let mut state = State::new();
    add(&mut state, "dev1_transfer.csv");
    add(&mut state, "dup_transfer.csv");
    add(&mut state, "dup_id-vg.csv");
    let p = plan(
        &state,
        vec![
            output("dev1_output.csv", "lot/dev1_output.csv"),
            output("dup_output.csv", "lot/dup_output.csv"),
            output("missing_output.csv", "lot/missing_output.csv"),
            output("Dev1 id-vd.txt", "lot/Dev1 id-vd.txt"),
        ],
    );
    assert_eq!(p.purpose, OutputRefinementPurpose::Import);
    assert_eq!(p.summary.unmatched, 1);
    assert_eq!(p.summary.ambiguous, 1);
    let reasons: Vec<_> = p.summary.pending.iter().map(|d| (d.ordinal, d.reason)).collect();
    assert_eq!(
        reasons,
        vec![(1, PendingOutputReason::Ambiguous), (2, PendingOutputReason::NoMatch)]
    );
    assert_eq!(p.jobs.len(), 1);
    assert_eq!(p.jobs[0].device_name, "dev1_transfer.csv");
    let ordinals: Vec<_> = p.jobs[0]
        .operations
        .iter()
        .map(|op| match op {
            OutputOperation::Replace { ordinal, .. } => *ordinal,
            OutputOperation::Clear { .. } => usize::MAX,
        })
        .collect();
    assert_eq!(ordinals, vec![0, 3]);
}

#[test]
fn attached_output_bumps_revision_and_reports_counts() {
    let mut state = State::new();
    add(&mut state, "dev_transfer.csv");
    let mut fitted = output("dev_output.csv", "lot/dev_output.csv");
    fitted.curves = vec![1, 2, 3];
    let report = state.commit_output_refinement(run(plan(&state, vec![fitted])));
    assert!(report.action_succeeded);
    assert_eq!(report.attached, 1);
    assert_eq!(report.unfittable, 0);
    assert_eq!(report.displaced, 0);
    assert!(report.issues.is_empty());
    let entry = &state.devices()[0];
    assert_eq!(entry.output_name(), Some("dev_output.csv"));
    assert_eq!(entry.output_source_path(), Some("lot/dev_output.csv"));
    assert_eq!(entry.revision().get(), 1);
    assert_eq!(entry.device().curves, Some(vec![1, 2, 3]));
    assert!(state.pending_outputs().is_empty());
}

#[test]
fn deferred_unmatched_and_ambiguous_outputs_keep_global_order_on_commit_and_recovery() {
    let mut state = State::new();
    add(&mut state, "dup_transfer.csv");
    add(&mut state, "dup_id-vg.csv");
    let ambiguous = || output("dup_output.csv", "shared/Cargo.toml");
    let unmatched = || output("missing_output.csv", "shared/Cargo.toml");

    let p = plan(&state, vec![ambiguous(), unmatched()]);
    state.commit_output_refinement(run(p));
    assert_eq!(state.pending_outputs().len(), 1);
    assert_eq!(state.pending_outputs()[0].reason(), PendingOutputReason::NoMatch);

    assert!(state.remove_pending_output(0));
    let p = plan(&state, vec![unmatched(), ambiguous()]);
    state.commit_output_refinement(run(p));
    assert_eq!(state.pending_outputs().len(), 1);
    assert_eq!(state.pending_outputs()[0].reason(), PendingOutputReason::Ambiguous);

    assert!(state.remove_pending_output(0));
    let p = plan(&state, vec![ambiguous(), unmatched()]);
    let report = state.recover_output_refinement(p.panic_recovery());
    assert_eq!(report.recovered, 1);
    assert_eq!(state.pending_outputs().len(), 1);
    assert_eq!(state.pending_outputs()[0].reason(), PendingOutputReason::NoMatch);

    assert!(state.remove_pending_output(0));
    let p = plan(&state, vec![unmatched(), ambiguous()]);
    state.recover_output_refinement(p.panic_recovery());
    assert_eq!(state.pending_outputs().len(), 1);
    assert_eq!(state.pending_outputs()[0].reason(), PendingOutputReason::Ambiguous);
}

#[test]
fn guarded_output_commit_follows_identity_across_index_reorder() {
    let mut state = State::new();
    add(&mut state, "first_transfer.csv");
    add(&mut state, "second_transfer.csv");
    let target_id = state.devices()[1].id();
    let result = run(plan(&state, vec![output("second_output.csv", "lot/second_output.csv")]));

    assert!(state.remove_device(0));
    let report = state.commit_output_refinement(result);
    assert_eq!(report.attached, 1);
    assert_eq!(report.unfittable, 1);
    let target = state
        .devices()
        .iter()
        .find(|entry| entry.id() == target_id)
        .expect("target survives at a new index");
    assert_eq!(target.output_name(), Some("second_output.csv"));
}

#[test]
fn removed_output_target_becomes_device_changed_pending_data() {
    let mut state = State::new();
    add(&mut state, "dev_transfer.csv");
    let result = run(plan(&state, vec![output("dev_output.csv", "lot/dev_output.csv")]));
    assert!(state.remove_device(0));

    let report = state.commit_output_refinement(result);
    assert_eq!(report.issues.len(), 1);
    assert_eq!(report.issues[0].message, OUTPUT_STALE_MESSAGE);
    assert_eq!(report.issues[0].name, "dev_output.csv");
    assert!(!report.issues[0].persist);
    assert_eq!(state.pending_outputs().len(), 1);
    assert_eq!(state.pending_outputs()[0].reason(), PendingOutputReason::DeviceChanged);
}

#[test]
fn scientific_edit_makes_output_result_stale_without_overwriting_live_state() {
    let mut state = State::new();
    add(&mut state, "dev_transfer.csv");
    let result = run(plan(&state, vec![output("dev_output.csv", "lot/dev_output.csv")]));
    let mut edited = state.selected_entry().unwrap().device().clone();
    edited.vt = 7;
    assert!(state.commit_selected_device::<(), ()>(edited.clone(), true).is_ok());

    let report = state.commit_output_refinement(result);
    assert!(!report.action_succeeded);
    assert_eq!(state.selected_entry().unwrap().device(), &edited);
    assert_eq!(state.selected_entry().unwrap().output_name(), None);
    assert_eq!(state.pending_outputs()[0].reason(), PendingOutputReason::DeviceChanged);
}

#[test]
fn same_device_output_batch_preserves_dialog_order_and_displaced_source() {
    let mut state = State::new();
    add(&mut state, "dev_transfer.csv");
    let revision = state.selected_entry().unwrap().revision();
    let p = plan(
        &state,
        vec![
            output("dev_output.csv", "lot-a/dev_output.csv"),
            output("dev_id-vd.csv", "lot-b/dev_id-vd.csv"),
        ],
    );
    assert_eq!(p.jobs.len(), 1);
    let result = run(p);
    let report = state.commit_output_refinement(result);
    assert_eq!(report.displaced, 1);

    let entry = state.selected_entry().unwrap();
    assert_eq!(entry.output_name(), Some("dev_id-vd.csv"));
    assert_eq!(entry.output_source_path(), Some("lot-b/dev_id-vd.csv"));
    assert_eq!(state.pending_outputs().len(), 1);
    assert_eq!(state.pending_outputs()[0].name(), "dev_output.csv");
    assert_eq!(state.pending_outputs()[0].reason(), PendingOutputReason::Detached);
    assert_eq!(entry.revision().get(), revision.get() + 1);
}

#[test]
fn explicit_output_detach_appends_after_existing_pending_rows() {
    let mut state = State::new();
    add(&mut state, "dev_transfer.csv");
    state.commit_output_refinement(run(plan(&state, vec![output("dev_output.csv", "attached/dev_output.csv")])));
    let pending = output("other_output.csv", "pending/other_output.csv");
    state.add_pending_output(pending.source, pending.curves, PendingOutputReason::NoMatch);

    let p = state
        .plan_output_clear(0, OutputRefinementPurpose::Detach)
        .expect("attached output plans a detach");
    let report = state.commit_output_refinement(run(p));

    assert!(report.action_succeeded);
    assert_eq!(state.selected_entry().unwrap().output_name(), None);
    assert_eq!(pending_names(&state), vec!["other_output.csv", "dev_output.csv"]);
    assert_eq!(state.pending_outputs()[1].reason(), PendingOutputReason::Detached);
}

#[test]
fn removing_an_output_keeps_nothing_pending() {
    let mut state = State::new();
    add(&mut state, "dev_transfer.csv");
    assert!(state.plan_output_clear(0, OutputRefinementPurpose::Remove).is_none());
    state.commit_output_refinement(run(plan(&state, vec![output("dev_output.csv", "a/dev_output.csv")])));
    let p = state.plan_output_clear(0, OutputRefinementPurpose::Remove).unwrap();
    let report = state.commit_output_refinement(run(p));
    assert!(report.action_succeeded);
    assert_eq!(state.selected_entry().unwrap().output_name(), None);
    assert!(state.pending_outputs().is_empty());
    assert!(state.plan_output_clear(5, OutputRefinementPurpose::Remove).is_none());
}

#[test]
fn rejected_output_clear_commit_preserves_both_attachments_and_revision() {
    for purpose in [OutputRefinementPurpose::Detach, OutputRefinementPurpose::Remove] {
        let (mut state, _) = state_with_output_and_dibl();
        let revision = state.selected_entry().unwrap().revision();
        let p = state.plan_output_clear(0, purpose).expect("attached output plans a clear");
        let mut result = run(p);
        let job = &mut result.jobs[0];
        job.changed = false;
        job.clear_pending = None;
        job.clear_error = Some(OUTPUT_CLEAR_DIBL_CONFLICT_MESSAGE.to_owned());

        let report = state.commit_output_refinement(result);

        assert!(!report.action_succeeded);
        assert_eq!(report.issues.len(), 1);
        assert_eq!(report.issues[0].name, "dev_transfer.csv");
        let entry = state.selected_entry().unwrap();
        assert_eq!(entry.revision(), revision);
        assert_eq!(entry.output_name(), Some("dev_output.csv"));
        assert_eq!(entry.dibl_name(), Some("dev_low.csv"));
        assert!(state.pending_outputs().is_empty());
    }
}

#[test]
fn a_refused_detach_of_a_retained_dibl_device_reports_the_resolution() {
    let (mut state, _) = state_with_output_and_dibl();
    let p = state.plan_output_clear(0, OutputRefinementPurpose::Detach).unwrap();
    let report = state.commit_output_refinement(run(p));
    assert!(!report.action_succeeded);
    assert_eq!(report.issues[0].message, OUTPUT_CLEAR_DIBL_CONFLICT_MESSAGE);
    assert_eq!(state.selected_entry().unwrap().output_name(), Some("dev_output.csv"));
}

#[test]
fn retained_dibl_rejection_keeps_exact_output_pending_without_revision_change() {
    let (mut state, output_curves) = state_with_output_and_dibl();
    let rejected = conflicting_output(output_curves);
    let before = state.selected_entry().unwrap().device().clone();
    let revision = state.selected_entry().unwrap().revision();
    let p = plan(
        &state,
        vec![OutputImport {
            source: OutputSource::new("dev_output.csv", Some("lot/dev_output.csv".into())).unwrap(),
            curves: rejected.clone(),
        }],
    );

    let report = state.commit_output_refinement(run(p));

    assert!(!report.action_succeeded);
    assert_eq!(report.attached, 0);
    assert_eq!(report.unfittable, 0);
    assert_eq!(report.issues.len(), 1);
    assert_eq!(report.issues[0].message, OUTPUT_DIBL_CONFLICT_MESSAGE);
    let entry = state.selected_entry().unwrap();
    assert_eq!(entry.revision(), revision);
    assert_eq!(entry.device(), &before);
    assert_eq!(entry.output_name(), Some("dev_output.csv"));
    assert_eq!(entry.dibl_name(), Some("dev_low.csv"));
    assert_eq!(state.pending_outputs().len(), 1);
    assert_eq!(state.pending_outputs()[0].reason(), PendingOutputReason::DiblConflict);
    assert_eq!(state.pending_outputs()[0].curves, rejected);
}

#[test]
fn newer_rejected_output_beats_older_displacement_in_a_mixed_batch() {
    let (mut state, valid) = state_with_output_and_dibl();
    let rejected = conflicting_output(valid.clone());
    let revision = state.selected_entry().unwrap().revision();
    let p = plan(
        &state,
        vec![
            OutputImport {
                source: OutputSource::new("dev_output.csv", Some("lot/dev_output.csv".into())).unwrap(),
                curves: rejected.clone(),
            },
            OutputImport {
                source: OutputSource::new("dev_id-vd.csv", Some("lot/dev_id-vd.csv".into())).unwrap(),
                curves: valid,
            },
        ],
    );

    let report = state.commit_output_refinement(run(p));

    assert!(report.action_succeeded);
    assert_eq!(report.displaced, 1);
    assert_eq!(state.selected_entry().unwrap().revision().get(), revision.get() + 1);
    assert_eq!(state.selected_entry().unwrap().output_name(), Some("dev_id-vd.csv"));
    assert_eq!(state.selected_entry().unwrap().dibl_name(), Some("dev_low.csv"));
    assert_eq!(state.pending_outputs().len(), 1);
    assert_eq!(state.pending_outputs()[0].reason(), PendingOutputReason::DiblConflict);
    assert_eq!(state.pending_outputs()[0].curves, rejected);
}

#[test]
fn later_successful_same_source_output_suppresses_an_earlier_rejection() {
    let (mut state, valid) = state_with_output_and_dibl();
    let p = plan(
        &state,
        vec![
            OutputImport {
                source: OutputSource::new("dev_output.csv", Some("lot/dev_output.csv".into())).unwrap(),
                curves: conflicting_output(valid.clone()),
            },
            OutputImport {
                source: OutputSource::new("dev_output.csv", Some("lot/dev_output.csv".into())).unwrap(),
                curves: valid,
            },
        ],
    );

    let report = state.commit_output_refinement(run(p));

    assert!(report.action_succeeded);
    assert_eq!(state.pending_outputs().len(), 0);
    assert_eq!(state.selected_entry().unwrap().output_name(), Some("dev_output.csv"));
}

#[test]
fn later_unmatched_alias_beats_an_earlier_rejected_output_globally() {
    let (mut state, valid) = state_with_output_and_dibl();
    let latest: Vec<u32> = valid.iter().map(|v| v * 2).collect();
    let mut direct = OutputSource::new("dev_output.csv", Some("crate/Cargo.toml".into())).unwrap();
    direct.resolve_identity("/abs/crate/Cargo.toml");
    let mut alias = OutputSource::new("orphan_output.csv", Some("crate/src/../Cargo.toml".into())).unwrap();
    alias.resolve_identity("/abs/crate/Cargo.toml");
    let p = plan(
        &state,
        vec![
            OutputImport { source: direct, curves: conflicting_output(valid) },
            OutputImport { source: alias, curves: latest.clone() },
        ],
    );

    let report = state.commit_output_refinement(run(p));

    assert_eq!(report.unmatched, 1);
    assert_eq!(state.pending_outputs().len(), 1);
    assert_eq!(state.pending_outputs()[0].reason(), PendingOutputReason::NoMatch);
    assert_eq!(state.pending_outputs()[0].curves, latest);
}

#[test]
fn pending_output_attaches_to_the_selected_row() {
    let mut state = State::new();
    add(&mut state, "dev_transfer.csv");
    state.add_pending_output(
        OutputSource::new("x_output.csv", Some("lot/x_output.csv".into())).unwrap(),
        vec![1, 2, 3],
        PendingOutputReason::NoMatch,
    );
    assert!(state.plan_pending_output_attach(3).is_none());
    let p = state.plan_pending_output_attach(0).expect("selected row and pending row");
    assert_eq!(p.purpose, OutputRefinementPurpose::AttachPending);
    let report = state.commit_output_refinement(run(p));
    assert!(report.action_succeeded);
    assert_eq!(state.selected_entry().unwrap().output_name(), Some("x_output.csv"));
    assert!(state.pending_outputs().is_empty());

    let empty = State::new();
    assert!(empty.plan_pending_output_attach(0).is_none());
}

#[test]
fn panic_recovery_keeps_every_output_input_and_parse_issue_without_mutating_science() {
    let mut state = State::new();
    add(&mut state, "dev_transfer.csv");
    let revision = state.selected_entry().unwrap().revision();
    let imports = vec![
        output("dev_output.csv", "lot-a/dev_output.csv"),
        output("dev_id-vd.csv", "lot-b/dev_id-vd.csv"),
    ];
    let stems = imports.iter().map(|i| stem(i.source.name())).collect();
    let p = state.plan_output_imports_with_issues(
        imports,
        stems,
        vec![OutputIssue {
            name: "bad-output.csv".into(),
            message: "missing Vd column".into(),
            persist: true,
        }],
    );

    let report = state.recover_output_refinement(p.panic_recovery());

    assert_eq!(report.purpose, OutputRefinementPurpose::Import);
    assert_eq!(report.recovered, 2);
    assert_eq!(report.parse_issues.len(), 1);
    assert_eq!(state.selected_entry().unwrap().revision(), revision);
    assert_eq!(state.selected_entry().unwrap().output_name(), None);
    assert_eq!(
        state
            .pending_outputs()
            .iter()
            .map(|pending| (pending.name(), pending.reason()))
            .collect::<Vec<_>>(),
        vec![
            ("dev_output.csv", PendingOutputReason::WorkerFailed),
            ("dev_id-vd.csv", PendingOutputReason::WorkerFailed),
        ]
    );
}

#[test]
fn panic_recovery_orders_deferred_and_worker_files_by_dialog_position() {
    let mut state = State::new();
    add(&mut state, "dev_transfer.csv");
    let imports = vec![
        output("missing_output.csv", "lot/missing_output.csv"),
        output("dev_output.csv", "lot/dev_output.csv"),
        output("other_output.csv", "lot/other_output.csv"),
    ];
    let stems = imports.iter().map(|i| stem(i.source.name())).collect();
    let p = state.plan_output_imports_with_issues(imports, stems, Vec::new());
    let recovery = p.panic_recovery();
    let kept: Vec<_> = recovery
        .pending
        .iter()
        .map(|d| (d.ordinal, d.import.source.name().to_string(), d.reason))
        .collect();
    assert_eq!(
        kept,
        vec![
            (0, "missing_output.csv".to_string(), PendingOutputReason::NoMatch),
            (1, "dev_output.csv".to_string(), PendingOutputReason::WorkerFailed),
            (2, "other_output.csv".to_string(), PendingOutputReason::NoMatch),
        ]
    );
}

#[test]
fn panic_recovery_updates_pending_output_reason_without_attaching() {
    let mut state = State::new();
    add(&mut state, "dev_transfer.csv");
    let pending = output("dev_output.csv", "lot/dev_output.csv");
    state.add_pending_output(pending.source, pending.curves, PendingOutputReason::NoMatch);
    let revision = state.selected_entry().unwrap().revision();
    let p = state.plan_pending_output_attach(0).expect("selected device and pending output");

    let report = state.recover_output_refinement(p.panic_recovery());

    assert_eq!(report.purpose, OutputRefinementPurpose::AttachPending);
    assert_eq!(report.recovered, 1);
    assert_eq!(state.selected_entry().unwrap().revision(), revision);
    assert_eq!(state.selected_entry().unwrap().output_name(), None);
    assert_eq!(state.pending_outputs()[0].reason(), PendingOutputReason::WorkerFailed);
}

#[test]
fn panic_recovery_counts_the_generation_ordered_output_match_set() {
    fn import(path: Option<&str>, marker: u32) -> OutputImport<Vec<u32>> {
        OutputImport {
            source: OutputSource::new("shared_output.csv", path.map(String::from)).unwrap(),
            curves: vec![marker],
        }
    }

    fn recover(imports: Vec<OutputImport<Vec<u32>>>) -> (State, usize) {
        let mut state = State::new();
        let recovery = OutputRefinementRecovery {
            purpose: OutputRefinementPurpose::Import,
            pending: imports
                .into_iter()
                .enumerate()
                .map(|(ordinal, import)| DeferredOutput {
                    ordinal,
                    import,
                    reason: PendingOutputReason::WorkerFailed,
                })
                .collect(),
            parse_issues: Vec::new(),
        };
        let recovered = state.recover_output_refinement(recovery).recovered;
        (state, recovered)
    }

    let (latest_pathless, recovered) = recover(vec![
        import(Some("lot-a/shared_output.csv"), 1),
        import(Some("lot-b/shared_output.csv"), 2),
        import(None, 3),
    ]);
    assert_eq!(recovered, 1);
    assert_eq!(latest_pathless.pending_outputs().len(), 1);
    assert_eq!(latest_pathless.pending_outputs()[0].source_path(), None);
    assert_eq!(latest_pathless.pending_outputs()[0].curves[0], 3);

    let (latest_pathful, recovered) = recover(vec![
        import(None, 3),
        import(Some("lot-a/shared_output.csv"), 1),
        import(Some("lot-b/shared_output.csv"), 2),
    ]);
    assert_eq!(recovered, 2);
    assert_eq!(
        latest_pathful.pending_outputs().iter().map(|p| p.source_path()).collect::<Vec<_>>(),
        vec![Some("lot-a/shared_output.csv"), Some("lot-b/shared_output.csv")]
    );
}

#[test]
fn panic_recovery_for_output_clear_purposes_leaves_attachment_unchanged() {
    for purpose in [OutputRefinementPurpose::Detach, OutputRefinementPurpose::Remove] {
        let mut state = State::new();
        add(&mut state, "dev_transfer.csv");
        state.commit_output_refinement(run(plan(&state, vec![output("dev_output.csv", "a/dev_output.csv")])));
        let revision = state.selected_entry().unwrap().revision();
        let p = state.plan_output_clear(0, purpose).unwrap();
        let report = state.recover_output_refinement(p.panic_recovery());
        assert_eq!(report.recovered, 0);
        assert_eq!(report.purpose, purpose);
        assert!(state.pending_outputs().is_empty());
        assert_eq!(state.selected_entry().unwrap().output_name(), Some("dev_output.csv"));
        assert_eq!(state.selected_entry().unwrap().revision(), revision);
    }
}

#[test]
fn pending_output_rows_expose_their_source() {
    let row = PendingOutput {
        source: OutputSource::new("a_output.csv", Some("lot/a_output.csv".into())).unwrap(),
        curves: vec![1u32],
        reason: PendingOutputReason::Detached,
    };
    assert_eq!(row.name(), "a_output.csv");
    assert_eq!(row.source_path(), Some("lot/a_output.csv"));
    assert_eq!(row.reason(), PendingOutputReason::Detached);
}


/// An output source whose path resolves to the shared canonical file.
fn canonical_output(name: &str, path: &str) -> OutputSource {
    let mut source = OutputSource::new(name, Some(path.to_string())).unwrap();
    source.resolve_identity("/abs/crate/Cargo.toml");
    source
}

/// Detaches the retained DIBL measurement of row 0.
fn drop_dibl(state: &mut State) {
    let plan: DiblRefinementPlan<Dev, u32> =
        state.plan_dibl_clear(0, DiblRefinementPurpose::Remove).expect("retained DIBL plans a removal");
    let DiblRefinementPlan { purpose, mode, jobs, summary } = plan;
    let mut results = Vec::new();
    for job in jobs {
        let (mut job_run, operations) = DiblJobRun::<Dev, u32, f64>::start(job);
        for operation in operations {
            if let DiblOperation::Clear { keep_pending } = operation {
                let mut dev = job_run.science.device().clone();
                dev.retained_dibl = false;
                job_run = job_run.clear_applied(keep_pending, dev, 10);
            }
        }
        results.push(job_run.finish());
    }
    let report = state.commit_dibl_refinement(DiblRefinementResult { purpose, mode, jobs: results, summary });
    assert!(report.action_succeeded);
}

#[test]
fn panic_recovery_preserves_later_deferred_reason_across_canonical_aliases() {
    let mut state = State::new();
    add(&mut state, "dev_transfer.csv");
    let latest = OutputImport {
        source: canonical_output("orphan_output.csv", "crate/src/../Cargo.toml"),
        curves: vec![7, 7],
    };
    let p = plan(
        &state,
        vec![
            OutputImport { source: canonical_output("dev_output.csv", "crate/Cargo.toml"), curves: vec![4, 1] },
            latest,
        ],
    );

    let report = state.recover_output_refinement(p.panic_recovery());

    assert_eq!(report.recovered, 1);
    assert_eq!(state.pending_outputs().len(), 1);
    assert_eq!(state.pending_outputs()[0].reason(), PendingOutputReason::NoMatch);
    assert_eq!(state.pending_outputs()[0].curves, vec![7, 7]);
}

#[test]
fn latest_output_payload_wins_across_grouped_jobs_and_a_stale_success() {
    let (mut state, valid) = state_with_output_and_dibl();
    add(&mut state, "other_transfer.csv");
    let latest: Vec<u32> = conflicting_output(valid.iter().map(|v| v * 5).collect());
    let other_curves = vec![9, 9, 9];
    let p = plan(
        &state,
        vec![
            OutputImport {
                source: canonical_output("dev_output.csv", "crate/Cargo.toml"),
                curves: conflicting_output(valid),
            },
            OutputImport {
                source: canonical_output("other_output.csv", "crate/Cargo.toml"),
                curves: other_curves.clone(),
            },
            OutputImport {
                source: canonical_output("dev_output.csv", "crate/src/../Cargo.toml"),
                curves: latest.clone(),
            },
        ],
    );
    let result = run(p);
    state.select(1);
    let mut edited = state.selected_entry().unwrap().device().clone();
    edited.vt += 1;
    assert!(state.commit_selected_device::<(), ()>(edited, true).is_ok());

    let report = state.commit_output_refinement(result);

    assert_eq!(report.issues.len(), 3);
    assert_eq!(state.pending_outputs().len(), 1);
    assert_eq!(state.pending_outputs()[0].reason(), PendingOutputReason::DiblConflict);
    assert_eq!(state.pending_outputs()[0].curves, latest);
    assert_ne!(state.pending_outputs()[0].curves, other_curves);
}

#[test]
fn stale_output_result_keeps_rejected_input_as_device_changed() {
    let (mut state, valid) = state_with_output_and_dibl();
    let rejected = conflicting_output(valid);
    let p = plan(
        &state,
        vec![OutputImport {
            source: OutputSource::new("dev_output.csv", Some("lot/dev_output.csv".into())).unwrap(),
            curves: rejected.clone(),
        }],
    );
    let result = run(p);
    let mut edited = state.selected_entry().unwrap().device().clone();
    edited.vt += 1;
    assert!(state.commit_selected_device::<(), ()>(edited, true).is_ok());

    let report = state.commit_output_refinement(result);

    assert!(!report.action_succeeded);
    assert_eq!(state.pending_outputs().len(), 1);
    assert_eq!(state.pending_outputs()[0].reason(), PendingOutputReason::DeviceChanged);
    assert_eq!(state.pending_outputs()[0].curves, rejected);
}

#[test]
fn existing_newer_pending_output_survives_detaching_the_older_attachment() {
    let (mut state, attached) = state_with_output_and_dibl();
    let pending = conflicting_output(attached);
    state.add_pending_output(
        OutputSource::new("dev_output.csv", Some("lot/dev_output.csv".into())).unwrap(),
        pending.clone(),
        PendingOutputReason::DiblConflict,
    );
    drop_dibl(&mut state);
    let p = state
        .plan_output_clear(0, OutputRefinementPurpose::Detach)
        .expect("attached output plans a detach");

    let report = state.commit_output_refinement(run(p));

    assert!(report.action_succeeded);
    assert_eq!(state.pending_outputs().len(), 1);
    assert_eq!(state.pending_outputs()[0].reason(), PendingOutputReason::DiblConflict);
    assert_eq!(state.pending_outputs()[0].curves, pending);
}

#[test]
fn ordered_output_batch_keeps_the_last_attachment_and_every_displaced_source() {
    let mut state = State::new();
    add(&mut state, "dev_transfer.csv");
    state.commit_output_refinement(run(plan(&state, vec![output("dev_output.csv", "lot-initial/dev_output.csv")])));

    let p = plan(
        &state,
        vec![
            output("dev_output.csv", "lot-first/dev_output.csv"),
            output("dev_id-vd.csv", "lot-second/dev_id-vd.csv"),
        ],
    );
    let report = state.commit_output_refinement(run(p));

    assert_eq!(report.displaced, 2);
    assert_eq!(state.selected_entry().unwrap().output_source_path(), Some("lot-second/dev_id-vd.csv"));
    assert_eq!(
        state.pending_outputs().iter().map(|p| p.source_path().unwrap()).collect::<Vec<_>>(),
        vec!["lot-initial/dev_output.csv", "lot-first/dev_output.csv"]
    );
    assert!(state.pending_outputs().iter().all(|p| p.reason() == PendingOutputReason::Detached));
}

#[test]
fn precommand_output_displacements_fold_generation_ordered_match_sets() {
    let pending = |path: Option<&str>, marker: u32| PendingOutput {
        source: OutputSource::new("shared_output.csv", path.map(String::from)).unwrap(),
        curves: vec![0, marker],
        reason: PendingOutputReason::Detached,
    };
    let effect = |ordinal: usize, pending: PendingOutput<Vec<u32>>| PendingEffect::PreCommandDisplacement {
        ordinal,
        pending,
    };

    let mut state = State::new();
    let latest = pending(Some("lot/shared.csv"), 2);
    state.apply_output_effects(vec![effect(2, latest), effect(1, pending(Some("lot/shared.csv"), 1))]);
    assert_eq!(state.pending_outputs().len(), 1);
    assert_eq!(state.pending_outputs()[0].curves, vec![0, 2]);

    let mut state = State::new();
    state.apply_output_effects(vec![
        effect(1, pending(Some("lot-a/shared.csv"), 1)),
        effect(2, pending(Some("lot-b/shared.csv"), 2)),
        effect(3, pending(None, 3)),
    ]);
    assert_eq!(state.pending_outputs().len(), 1);
    assert_eq!(state.pending_outputs()[0].source_path(), None);

    let mut state = State::new();
    state.apply_output_effects(vec![
        effect(1, pending(None, 1)),
        effect(2, pending(Some("lot-a/shared.csv"), 2)),
        effect(3, pending(Some("lot-b/shared.csv"), 3)),
    ]);
    assert_eq!(
        state.pending_outputs().iter().map(|p| p.source_path().unwrap()).collect::<Vec<_>>(),
        vec!["lot-a/shared.csv", "lot-b/shared.csv"]
    );
}

#[test]
fn cleared_pathless_alias_cannot_destroy_a_distinct_displaced_output() {
    let mut state = State::new();
    add(&mut state, "dev_transfer.csv");
    let initial = output("dev_output.csv", "lot-a/dev_output.csv");
    let displaced_curves = initial.curves.clone();
    state.commit_output_refinement(run(plan(&state, vec![initial])));
    state.add_pending_output(
        OutputSource::new("dev_output.csv", None).unwrap(),
        output("dev_output.csv", "pending/dev_output.csv").curves,
        PendingOutputReason::NoMatch,
    );

    let report = state.commit_output_refinement(run(plan(&state, vec![output("dev_output.csv", "lot-b/dev_output.csv")])));

    assert_eq!(report.displaced, 1);
    assert_eq!(state.selected_entry().unwrap().output_source_path(), Some("lot-b/dev_output.csv"));
    assert_eq!(state.pending_outputs().len(), 1);
    assert_eq!(state.pending_outputs()[0].source_path(), Some("lot-a/dev_output.csv"));
    assert_eq!(state.pending_outputs()[0].reason(), PendingOutputReason::Detached);
    assert_eq!(state.pending_outputs()[0].curves, displaced_curves);
}

#[test]
fn canonical_output_alias_reload_clears_pending_without_detaching_the_source() {
    let mut state = State::new();
    add(&mut state, "dev_transfer.csv");
    let initial = OutputImport { source: canonical_output("dev_output.csv", "crate/Cargo.toml"), curves: vec![4, 1] };
    let initial_curves = initial.curves.clone();
    let report = state.commit_output_refinement(run(plan(&state, vec![initial])));
    assert_eq!(report.displaced, 0);
    assert!(state.pending_outputs().is_empty());

    state.add_pending_output(
        canonical_output("dev_output_stale.csv", "crate/src/../Cargo.toml"),
        initial_curves,
        PendingOutputReason::NoMatch,
    );
    let reload = OutputImport { source: canonical_output("dev_id-vd.csv", "crate/src/../Cargo.toml"), curves: vec![4, 1] };
    let report = state.commit_output_refinement(run(plan(&state, vec![reload])));
    assert_eq!(report.displaced, 0);

    let entry = state.selected_entry().expect("device remains selected");
    assert_eq!(entry.output_name(), Some("dev_id-vd.csv"));
    assert_eq!(entry.output_source_path(), Some("crate/src/../Cargo.toml"));
    assert!(state.pending_outputs().is_empty());
}

#[test]
fn output_detach_result_is_valid_before_one_atomic_commit() {
    let mut state = State::new();
    add(&mut state, "dev_transfer.csv");
    state.commit_output_refinement(run(plan(&state, vec![output("dev_output.csv", "lot/dev_output.csv")])));
    let revision = state.selected_entry().unwrap().revision();
    let p = state
        .plan_output_clear(0, OutputRefinementPurpose::Detach)
        .expect("attached output plans a detach");
    let result = run(p);
    let worker_science = &result.jobs[0].science;
    assert_eq!(worker_science.device().curves, None);
    assert!(!worker_science.has_output_curves());

    let report = state.commit_output_refinement(result);
    let entry = state.selected_entry().unwrap();
    assert_eq!(entry.device().curves, None);
    assert_eq!(entry.output_name(), None);
    assert_eq!(entry.revision().get(), revision.get() + 1);
    assert_eq!(state.pending_outputs().len(), 1);
    assert_eq!(state.pending_outputs()[0].name(), "dev_output.csv");
    assert!(report.action_succeeded);
}

fn parsed(path: &str, name: &str, result: Result<Vec<u32>, String>) -> ParsedOutput<Vec<u32>> {
    ParsedOutput { path: path.to_string(), canonical: None, name: name.to_string(), result }
}

/// The page's flow for parsed output files: split, plan, refine, commit, and
/// keep the persistent issues.
fn finish_output_refinement(parsed: Vec<ParsedOutput<Vec<u32>>>, state: &mut State, issues: &mut IngestIssues) {
    let (imports, parse_issues) = output_imports_from_parsed(parsed);
    let stems = imports.iter().map(|i| stem(i.source.name())).collect();
    let p = state.plan_output_imports_with_issues(imports, stems, parse_issues);
    let report = state.commit_output_refinement(run(p));
    record_output_issues(issues, report.issues);
}

#[test]
fn output_parse_failure_persists_in_the_model_file_list() {
    let mut state = State::new();
    let mut issues = IngestIssues::new();
    finish_output_refinement(
        vec![parsed("lot-a/bad_output.xlsx", "bad_output.xlsx", Err("missing Vd column".into()))],
        &mut state,
        &mut issues,
    );
    assert!(issues.has_errors());
}

#[test]
fn unnamed_parsed_output_becomes_a_persistent_issue_before_refinement() {
    let mut state = State::new();
    let mut issues = IngestIssues::new();
    finish_output_refinement(vec![parsed("", "", Ok(Vec::new()))], &mut state, &mut issues);
    let rows = issues.rows();
    assert_eq!(rows.len(), 1);
    assert_eq!(rows[0].name, "(unnamed file)");
    assert_eq!(rows[0].message, OUTPUT_SOURCE_NAME_MESSAGE);
    assert!(state.pending_outputs().is_empty());
}

#[test]
fn unmatched_output_is_recoverable_as_pending_data() {
    let mut state = State::new();
    let mut issues = IngestIssues::new();
    finish_output_refinement(
        vec![parsed("lot-a/orphan_output.xlsx", "orphan_output.xlsx", Ok(Vec::new()))],
        &mut state,
        &mut issues,
    );
    assert_eq!(state.pending_outputs().len(), 1);
    assert_eq!(state.pending_outputs()[0].name(), "orphan_output.xlsx");
    assert!(!issues.has_errors());
}

#[test]
fn same_named_outputs_from_different_paths_remain_separate() {
    let mut state = State::new();
    let mut issues = IngestIssues::new();
    finish_output_refinement(
        vec![
            parsed("lot-a/orphan_output.xlsx", "orphan_output.xlsx", Ok(Vec::new())),
            parsed("lot-b/orphan_output.xlsx", "orphan_output.xlsx", Ok(Vec::new())),
        ],
        &mut state,
        &mut issues,
    );
    assert_eq!(state.pending_outputs().len(), 2);
    assert_ne!(state.pending_outputs()[0].source_path(), state.pending_outputs()[1].source_path());
}

#[test]
fn parsed_files_split_into_imports_and_issues_in_order() {
    let mut alias = parsed("crate/src/../out.csv", "out.csv", Ok(vec![1]));
    alias.canonical = Some("/abs/crate/out.csv".to_string());
    let (imports, issues) = output_imports_from_parsed(vec![
        parsed("a/bad.csv", "bad.csv", Err("missing Vd column".into())),
        alias,
        parsed("b/ ", " ", Ok(vec![2])),
        parsed("c/ok.csv", "ok.csv", Ok(vec![3])),
    ]);
    assert_eq!(imports.len(), 2);
    assert_eq!(imports[0].source.name(), "out.csv");
    assert_eq!(imports[0].source.path(), Some("crate/src/../out.csv"));
    let mut direct = OutputSource::new("other.csv", Some("crate/out.csv".into())).unwrap();
    direct.resolve_identity("/abs/crate/out.csv");
    assert!(imports[0].source.same_as(&direct));
    assert_eq!(imports[1].curves, vec![3]);
    let found: Vec<_> = issues.iter().map(|i| (i.name.as_str(), i.message.as_str(), i.persist)).collect();
    assert_eq!(
        found,
        vec![("bad.csv", "missing Vd column", true), ("b/ ", OUTPUT_SOURCE_NAME_MESSAGE, true)]
    );
}

#[test]
fn panicked_output_refinement_recovers_every_input_and_closes_the_busy_slot() {
    let mut state = State::new();
    let mut issues = IngestIssues::new();
    add(&mut state, "dev_transfer.csv");
    let revision = state.selected_entry().unwrap().revision();
    let imports = vec![
        output("dev_output.csv", "lot-a/dev_output.csv"),
        output("dev_id-vd.csv", "lot-b/dev_id-vd.csv"),
    ];
    let stems = imports.iter().map(|i| stem(i.source.name())).collect();
    let p = state.plan_output_imports_with_issues(
        imports,
        stems,
        vec![OutputIssue { name: "bad-output.csv".into(), message: "missing Vd column".into(), persist: true }],
    );

    let report = state.recover_output_refinement(p.panic_recovery());
    let message = output_failure_message(report.purpose, report.recovered);
    record_output_issues(&mut issues, report.parse_issues);
    issues.record("Model Fit output refinement".to_string(), message);

    let entry = state.selected_entry().unwrap();
    assert_eq!(entry.revision(), revision);
    assert_eq!(entry.output_name(), None);
    assert_eq!(
        state.pending_outputs().iter().map(|p| (p.name(), p.reason())).collect::<Vec<_>>(),
        vec![
            ("dev_output.csv", PendingOutputReason::WorkerFailed),
            ("dev_id-vd.csv", PendingOutputReason::WorkerFailed),
        ]
    );
    let rows = issues.rows();
    assert_eq!(rows.len(), 2);
    assert!(rows.iter().any(|row| row.name == "bad-output.csv"));
    assert!(rows.iter().any(|row| {
        row.name == "Model Fit output refinement"
            && row.message.contains("Kept 2 parsed output measurement(s) pending")
    }));
}
