use paramex_gui::dibl_refinement::{
    dibl_detach_error_message, dibl_imports_from_parsed, DiblDetachRefusal, ParsedDibl,
    DIBL_SOURCE_NAME_MESSAGE, DiblImport, DiblImportSummary, DiblIssue,
    DiblIssueKind, DiblJobResult, DiblJobRun, DiblOperation, DiblOperationResult,
    DiblRefinementMode, DiblRefinementPlan, DiblRefinementPurpose, DiblRefinementRecovery,
    DiblRefinementResult, DeferredDibl,
    DIBL_STALE_MESSAGE, LEVEL62_RESTORE_MESSAGE, NO_SECOND_TRANSFER_MESSAGE,
};
use paramex_gui::modelfit::{DeviceFacts, DeviceInstallOutcome, ModelFitState, PendingDibl, PendingDiblReason};
use paramex_gui::pending::PendingEffect;
use paramex_gui::issues::IngestIssues;
use paramex_gui::notices::{dibl_failure_message, record_dibl_issues};
use paramex_gui::source::{DiblSource, PrimaryTransferSource};

/// A second transfer as the stand-in library sees it: its drain bias and
/// threshold.
#[derive(Clone, Debug, PartialEq)]
struct Second {
    v_ds: u32,
    vt: u32,
}

/// A stand-in device: its primary drain bias and attached second transfer.
#[derive(Clone, Debug, PartialEq)]
struct Dev {
    v_ds: u32,
    second: Option<Second>,
    vt: u32,
}

type State = ModelFitState<Dev, Vec<u32>, Second>;
type Plan = DiblRefinementPlan<Dev, Second>;
type Outcome = DiblRefinementResult<Dev, Second, f64>;

fn stem(name: &str) -> String {
    let base = match name.rfind('.') {
        Some(dot) => &name[..dot],
        None => name,
    };
    base.to_lowercase().replace(['_', ' '], "-")
}

fn add(state: &mut State, name: &str) {
    let facts = DeviceFacts {
        name: name.to_string(),
        stem: stem(name),
        has_output_curves: false,
        has_second_transfer: false,
    };
    let device = Dev { v_ds: 5, second: None, vt: 1 };
    let primary = PrimaryTransferSource::new(name, None).unwrap();
    assert_eq!(
        state.install_fitted_device(device, facts, primary, None).unwrap(),
        DeviceInstallOutcome::Installed
    );
}

fn fitting_second(vt: u32) -> Second {
    Second { v_ds: 1, vt }
}

fn import(name: &str, second: Second) -> DiblImport<Second> {
    DiblImport { source: DiblSource::new(name, None).unwrap(), second }
}

fn plan(state: &State, imports: Vec<DiblImport<Second>>, target: Option<paramex_gui::modelfit::DeviceId>, single: bool) -> Plan {
    let stems = imports.iter().map(|i| stem(i.source.name())).collect();
    state.plan_dibl_refinement(imports, stems, target, single, Vec::new())
}

/// Runs the worker against the stand-in library: a second transfer at the
/// primary drain bias gives no DIBL fit.
fn run(plan: Plan) -> Outcome {
    let DiblRefinementPlan { purpose, mode, jobs, summary } = plan;
    let mut results = Vec::new();
    for job in jobs {
        let (mut job_run, operations) = DiblJobRun::start(job);
        for operation in operations {
            match operation {
                DiblOperation::Replace { ordinal, import } => {
                    let mut dev = job_run.science.device().clone();
                    if import.second.v_ds == dev.v_ds {
                        job_run = job_run.replace_no_fit(
                            ordinal,
                            import,
                            "The second transfer uses the primary drain bias.".to_string(),
                        );
                    } else {
                        let at = import.second.vt as f64 * 0.1;
                        let vds = import.second.v_ds as f64;
                        let displaced = dev.second.replace(import.second.clone());
                        job_run = job_run.replace_fitted(ordinal, import, dev, at, vds, displaced);
                    }
                }
                DiblOperation::Clear { keep_pending } => {
                    let mut dev = job_run.science.device().clone();
                    match dev.second.take() {
                        Some(second) => job_run = job_run.clear_applied(keep_pending, dev, second),
                        None => job_run = job_run.clear_refused(DiblDetachRefusal::NoSecondTransfer),
                    }
                }
            }
        }
        results.push(job_run.finish());
    }
    DiblRefinementResult { purpose, mode, jobs: results, summary }
}

#[test]
fn detach_refusals_keep_their_messages() {
    assert_eq!(
        dibl_detach_error_message(DiblDetachRefusal::NoSecondTransfer),
        NO_SECOND_TRANSFER_MESSAGE
    );
    assert_eq!(
        dibl_detach_error_message(DiblDetachRefusal::CannotRestoreLevel62Fit),
        LEVEL62_RESTORE_MESSAGE
    );
}

#[test]
fn panic_recovery_keeps_every_dibl_input_and_parse_issue_without_mutating_science() {
    let mut state = State::new();
    add(&mut state, "Id-Vg-high [(1) ; primary].csv");
    let revision = state.selected_entry().unwrap().revision();
    let names = ["Id-Vg-low [(1) ; first].csv", "Id-Vg-VD2V [(1) ; second].csv"];
    let imports: Vec<_> = names.iter().map(|name| import(name, fitting_second(15))).collect();
    let stems = imports.iter().map(|i| stem(i.source.name())).collect();
    let p = state.plan_dibl_refinement(
        imports,
        stems,
        None,
        false,
        vec![DiblIssue {
            name: "bad-dibl.csv".into(),
            message: "missing Vg column".into(),
            kind: DiblIssueKind::Parse,
        }],
    );

    let report = state.recover_dibl_refinement(p.panic_recovery());

    assert_eq!(report.purpose, DiblRefinementPurpose::Import);
    assert_eq!(report.mode, DiblRefinementMode::Batch);
    assert_eq!(report.recovered, 2);
    assert_eq!(report.issues.len(), 1);
    assert_eq!(state.selected_entry().unwrap().revision(), revision);
    assert_eq!(state.selected_entry().unwrap().dibl_name(), None);
    assert_eq!(
        state
            .pending_dibls()
            .iter()
            .map(|pending| (pending.name(), pending.reason()))
            .collect::<Vec<_>>(),
        vec![
            (names[0], PendingDiblReason::WorkerFailed),
            (names[1], PendingDiblReason::WorkerFailed),
        ]
    );
}

#[test]
fn panic_recovery_updates_pending_dibl_reason_without_attaching() {
    let mut state = State::new();
    add(&mut state, "device.csv");
    state.add_pending_dibl(
        DiblSource::new("device-low.csv", None).unwrap(),
        fitting_second(15),
        PendingDiblReason::NoMatch,
    );
    let revision = state.selected_entry().unwrap().revision();
    let p = state.plan_pending_dibl_attach(0).expect("selected device and pending DIBL");

    let report = state.recover_dibl_refinement(p.panic_recovery());

    assert_eq!(report.purpose, DiblRefinementPurpose::AttachPending);
    assert_eq!(report.mode, DiblRefinementMode::Single);
    assert_eq!(report.recovered, 1);
    assert_eq!(state.selected_entry().unwrap().revision(), revision);
    assert_eq!(state.selected_entry().unwrap().dibl_name(), None);
    assert_eq!(state.pending_dibls()[0].reason(), PendingDiblReason::WorkerFailed);
}

#[test]
fn panic_recovery_for_dibl_clear_purposes_leaves_attachment_unchanged() {
    for purpose in [DiblRefinementPurpose::Detach, DiblRefinementPurpose::Remove] {
        let mut state = State::new();
        add(&mut state, "device.csv");
        let target = state.selected_device_id();
        let p = plan(&state, vec![import("device-low.csv", fitting_second(15))], target, true);
        let report = state.commit_dibl_refinement(run(p));
        assert!(report.action_succeeded);
        let revision = state.selected_entry().unwrap().revision();
        let p = state.plan_dibl_clear(0, purpose).expect("attached DIBL plans a clear");

        let report = state.recover_dibl_refinement(p.panic_recovery());

        assert_eq!(report.purpose, purpose);
        assert_eq!(report.recovered, 0);
        assert_eq!(state.selected_entry().unwrap().revision(), revision);
        assert_eq!(state.selected_entry().unwrap().dibl_name(), Some("device-low.csv"));
        assert!(state.pending_dibls().is_empty());
    }
}

#[test]
fn single_dibl_plan_keeps_the_click_time_target_after_selection_changes() {
    let mut state = State::new();
    add(&mut state, "first_transfer.csv");
    add(&mut state, "second_transfer.csv");
    let captured = state.selected_device_id().unwrap();
    state.select(1);
    let p = plan(&state, vec![import("picked.csv", fitting_second(12))], Some(captured), true);

    assert_eq!(p.jobs.len(), 1);
    assert_eq!(p.jobs[0].token.id(), captured);
    assert_eq!(p.mode, DiblRefinementMode::Single);
}

#[test]
fn removed_click_time_target_keeps_the_import_pending_and_counts_stale() {
    let mut state = State::new();
    add(&mut state, "device.csv");
    let captured = state.selected_device_id();
    assert!(state.remove_device(0));
    let p = plan(&state, vec![import("device-low.csv", fitting_second(15))], captured, true);
    assert_eq!(p.summary.issues.len(), 1);
    assert_eq!(p.summary.issues[0].kind, DiblIssueKind::Stale);

    let report = state.commit_dibl_refinement(run(p));
    assert_eq!(report.stale, 1);
    assert!(report.fitted.is_empty());
    assert_eq!(state.pending_dibls().len(), 1);
    assert_eq!(state.pending_dibls()[0].reason(), PendingDiblReason::DeviceChanged);
}

#[test]
fn same_device_dibl_inputs_stay_in_dialog_order_on_one_clone() {
    let mut state = State::new();
    add(&mut state, "Id-Vg-high [(1) ; 5_1_2024 4_13_47 PM].csv");
    let primary_vds = state.selected_entry().unwrap().device().v_ds;
    let names = ["Id-Vg-low [(1) ; first].csv", "Id-Vg-VD2V [(1) ; second].csv"];
    let p = plan(
        &state,
        names.iter().map(|name| import(name, Second { v_ds: primary_vds, vt: 3 })).collect(),
        None,
        false,
    );
    assert_eq!(p.jobs.len(), 1);
    assert_eq!(
        p.jobs[0]
            .operations
            .iter()
            .map(|operation| match operation {
                DiblOperation::Replace { import, .. } => import.source.name(),
                DiblOperation::Clear { .. } => panic!("import plan contains a clear"),
            })
            .collect::<Vec<_>>(),
        names
    );
    let result = run(p);
    assert_eq!(
        result.jobs[0]
            .operations
            .iter()
            .map(|operation| match operation {
                DiblOperationResult::Fitted { import, .. } | DiblOperationResult::NoFit { import, .. } => {
                    import.source.name()
                }
            })
            .collect::<Vec<_>>(),
        names
    );
    let report = state.commit_dibl_refinement(result);
    assert!(report.fitted.is_empty());
    assert_eq!(report.issues.len(), 2);
    assert_eq!(
        state.pending_dibls().iter().map(|p| (p.name(), p.reason())).collect::<Vec<_>>(),
        names.iter().map(|name| (*name, PendingDiblReason::NoFit)).collect::<Vec<_>>()
    );
}

#[test]
fn mixed_success_and_no_fit_commits_once_and_keeps_the_failed_input_pending() {
    let mut state = State::new();
    add(&mut state, "Id-Vg-high [(1) ; primary].csv");
    let revision = state.selected_entry().unwrap().revision().get();
    let primary_vds = state.selected_entry().unwrap().device().v_ds;
    let successful_name = "Id-Vg-low [(1) ; success].csv";
    let failed_name = "Id-Vg-VD2V [(1) ; no-fit].csv";
    let p = plan(
        &state,
        vec![
            import(successful_name, fitting_second(15)),
            import(failed_name, Second { v_ds: primary_vds, vt: 17 }),
        ],
        None,
        false,
    );

    let report = state.commit_dibl_refinement(run(p));

    assert!(report.action_succeeded);
    assert_eq!(report.fitted.len(), 1);
    assert_eq!(report.fitted[0].name, successful_name);
    assert_eq!(report.fitted[0].second_vds, 1.0);
    assert!(report.fitted[0].at.is_finite());
    assert_eq!(report.displaced, 0);
    assert_eq!(report.unmatched, 0);
    assert_eq!(report.ambiguous, 0);
    assert_eq!(report.stale, 0);
    assert_eq!(report.commit_errors, 0);
    assert_eq!(report.issues.len(), 1);
    assert_eq!(report.issues[0].name, failed_name);
    assert_eq!(report.issues[0].kind, DiblIssueKind::NoFit);
    assert!(!report.issues[0].message.is_empty());
    let entry = state.selected_entry().unwrap();
    assert_eq!(entry.revision().get(), revision + 1);
    assert_eq!(entry.dibl_name(), Some(successful_name));
    assert_eq!(state.pending_dibls().len(), 1);
    assert_eq!(state.pending_dibls()[0].name(), failed_name);
    assert_eq!(state.pending_dibls()[0].reason(), PendingDiblReason::NoFit);
}

#[test]
fn attached_dibl_can_detach_to_pending_and_reattach() {
    let mut state = State::new();
    add(&mut state, "device.csv");
    let target = state.selected_device_id();
    let attach = plan(&state, vec![import("device-low.csv", fitting_second(15))], target, true);
    state.commit_dibl_refinement(run(attach));
    assert_eq!(state.selected_entry().unwrap().dibl_name(), Some("device-low.csv"));

    let detach = state
        .plan_dibl_clear(0, DiblRefinementPurpose::Detach)
        .expect("attached DIBL plans a detach");
    let report = state.commit_dibl_refinement(run(detach));
    assert!(report.action_succeeded);
    assert!(state.selected_entry().unwrap().dibl_name().is_none());
    assert_eq!(state.pending_dibls()[0].reason(), PendingDiblReason::Detached);

    let attach = state.plan_pending_dibl_attach(0).expect("pending DIBL attaches to selected");
    let report = state.commit_dibl_refinement(run(attach));
    assert!(report.action_succeeded);
    assert_eq!(state.selected_entry().unwrap().dibl_name(), Some("device-low.csv"));
    assert!(state.pending_dibls().is_empty());
}

#[test]
fn clearing_without_a_second_transfer_is_a_commit_error() {
    let mut state = State::new();
    add(&mut state, "device.csv");
    assert!(state.plan_dibl_clear(0, DiblRefinementPurpose::Remove).is_none());
    let target = state.selected_device_id();
    state.commit_dibl_refinement(run(plan(&state, vec![import("device-low.csv", fitting_second(15))], target, true)));
    let p = state.plan_dibl_clear(0, DiblRefinementPurpose::Remove).unwrap();
    let mut result = run(p);
    result.jobs[0].changed = false;
    result.jobs[0].clear_error = Some(LEVEL62_RESTORE_MESSAGE.to_string());
    let report = state.commit_dibl_refinement(result);
    assert!(!report.action_succeeded);
    assert_eq!(report.commit_errors, 1);
    assert_eq!(report.issues[0].kind, DiblIssueKind::Commit);
    assert_eq!(report.issues[0].message, LEVEL62_RESTORE_MESSAGE);
    assert_eq!(state.selected_entry().unwrap().dibl_name(), Some("device-low.csv"));
}

#[test]
fn replacing_an_attached_dibl_returns_the_old_one_as_pending() {
    let mut state = State::new();
    add(&mut state, "device.csv");
    let target = state.selected_device_id();
    state.commit_dibl_refinement(run(plan(&state, vec![import("device-low.csv", fitting_second(15))], target, true)));
    let report = state.commit_dibl_refinement(run(plan(
        &state,
        vec![import("device-vd2.csv", fitting_second(16))],
        target,
        true,
    )));
    assert_eq!(report.displaced, 1);
    assert_eq!(state.selected_entry().unwrap().dibl_name(), Some("device-vd2.csv"));
    assert_eq!(state.pending_dibls().len(), 1);
    assert_eq!(state.pending_dibls()[0].name(), "device-low.csv");
    assert_eq!(state.pending_dibls()[0].reason(), PendingDiblReason::Detached);
}

#[test]
fn stale_dibl_commit_does_not_replace_the_edited_live_device() {
    let mut state = State::new();
    add(&mut state, "dev_transfer.csv");
    let entry = &state.devices()[0];
    let result: Outcome = DiblRefinementResult {
        purpose: DiblRefinementPurpose::Import,
        mode: DiblRefinementMode::Single,
        jobs: vec![DiblJobResult {
            token: entry.token(),
            device_name: "dev_transfer.csv".into(),
            science: entry.science().duplicate(),
            operations: vec![DiblOperationResult::Fitted {
                ordinal: 0,
                import: import("dev_low.csv", fitting_second(12)),
                at: 1.0e-8,
                second_vds: 1.0,
                displaced: None,
            }],
            clear_pending: None,
            changed: true,
            clear_error: None,
        }],
        summary: DiblImportSummary::empty(),
    };
    let mut edited = state.selected_entry().unwrap().device().clone();
    edited.vt = 9;
    assert!(state.commit_selected_device::<(), ()>(edited.clone(), true).is_ok());

    let report = state.commit_dibl_refinement(result);
    assert!(report.fitted.is_empty());
    assert_eq!(report.issues[0].kind, DiblIssueKind::Stale);
    assert_eq!(state.pending_dibls().len(), 1);
    assert_eq!(state.pending_dibls()[0].reason(), PendingDiblReason::DeviceChanged);
    assert_eq!(state.selected_entry().unwrap().device(), &edited);
}

#[test]
fn stale_dibl_commit_discards_obsolete_no_fit_diagnostics() {
    let mut state = State::new();
    add(&mut state, "dev_transfer.csv");
    let entry = &state.devices()[0];
    let result: Outcome = DiblRefinementResult {
        purpose: DiblRefinementPurpose::Import,
        mode: DiblRefinementMode::Single,
        jobs: vec![DiblJobResult {
            token: entry.token(),
            device_name: "dev_transfer.csv".into(),
            science: entry.science().duplicate(),
            operations: vec![DiblOperationResult::NoFit {
                ordinal: 0,
                import: import("dev_low.csv", fitting_second(12)),
                message: "obsolete worker conclusion".to_owned(),
            }],
            clear_pending: None,
            changed: false,
            clear_error: None,
        }],
        summary: DiblImportSummary::empty(),
    };
    let mut edited = state.selected_entry().unwrap().device().clone();
    edited.vt = 9;
    assert!(state.commit_selected_device::<(), ()>(edited, true).is_ok());

    let report = state.commit_dibl_refinement(result);

    assert_eq!(report.issues.len(), 1);
    assert_eq!(report.issues[0].kind, DiblIssueKind::Stale);
    assert_eq!(report.issues[0].message, DIBL_STALE_MESSAGE);
    assert_eq!(state.pending_dibls()[0].reason(), PendingDiblReason::DeviceChanged);
}

/// The page's flow for parsed second transfers (each file's path is its
/// name): split, plan, refine, commit, and keep the persistent issues.
fn finish_dibl_refinement(
    single_target: Option<paramex_gui::modelfit::DeviceId>,
    outcomes: Vec<(String, Result<Second, String>)>,
    state: &mut State,
    issues: &mut IngestIssues,
) {
    let single = outcomes.len() == 1;
    let parsed = outcomes
        .into_iter()
        .map(|(name, result)| ParsedDibl { path: name.clone(), canonical: None, name, result })
        .collect();
    let (imports, parse_issues) = dibl_imports_from_parsed(parsed);
    let stems = imports.iter().map(|i| stem(i.source.name())).collect();
    let p = state.plan_dibl_refinement(imports, stems, single_target, single, parse_issues);
    let report = state.commit_dibl_refinement(run(p));
    record_dibl_issues(issues, report.issues);
}

fn add_at(state: &mut State, name: &str, path: &str) {
    let facts = DeviceFacts {
        name: name.to_string(),
        stem: stem(name),
        has_output_curves: false,
        has_second_transfer: false,
    };
    let device = Dev { v_ds: 5, second: None, vt: 2 };
    let primary = PrimaryTransferSource::new(name, Some(path.to_string())).unwrap();
    assert_eq!(
        state.install_fitted_device(device, facts, primary, None).unwrap(),
        DeviceInstallOutcome::Installed
    );
}

#[test]
fn dibl_parse_failures_persist_their_file_names_in_the_model_file_list() {
    let mut state = State::new();
    let mut issues = IngestIssues::new();
    finish_dibl_refinement(
        None,
        vec![
            ("bad_dibl_a.csv".into(), Err("missing Vg column".into())),
            ("bad_dibl_b.csv".into(), Err("missing Id column".into())),
        ],
        &mut state,
        &mut issues,
    );
    let rows = issues.rows();
    assert_eq!(rows.len(), 2);
    let names = rows.iter().map(|row| row.name).collect::<Vec<_>>();
    assert_eq!(names, ["bad_dibl_a.csv", "bad_dibl_b.csv"]);
}

#[test]
fn unnamed_parsed_dibl_becomes_a_persistent_issue_before_refinement() {
    let mut state = State::new();
    let mut issues = IngestIssues::new();
    finish_dibl_refinement(None, vec![(String::new(), Ok(fitting_second(3)))], &mut state, &mut issues);
    let rows = issues.rows();
    assert_eq!(rows.len(), 1);
    assert_eq!(rows[0].name, "(unnamed file)");
    assert_eq!(rows[0].message, DIBL_SOURCE_NAME_MESSAGE);
}

#[test]
fn valid_dibl_batch_failures_stay_pending_without_parse_style_error_rows() {
    let mut state = State::new();
    add(&mut state, "demo: organic");
    let organic_vds = state.devices()[0].device().v_ds;
    add_at(&mut state, "ambiguous_dibl.csv", "lot-a/ambiguous_dibl.csv");
    add_at(&mut state, "ambiguous_dibl.csv", "lot-b/ambiguous_dibl.csv");

    let second = |v_ds| Second { v_ds, vt: 3 };
    let mut issues = IngestIssues::new();
    finish_dibl_refinement(
        state.selected_device_id(),
        vec![
            ("demo: organic".into(), Ok(second(organic_vds))),
            ("missing_dibl.csv".into(), Ok(second(1))),
            ("ambiguous_dibl.csv".into(), Ok(second(1))),
        ],
        &mut state,
        &mut issues,
    );

    let rows = issues.rows();
    assert_eq!(rows.len(), 1);
    assert_eq!(rows[0].name, "demo: organic");
    let pending = state.pending_dibls().iter().map(|p| (p.name(), p.reason())).collect::<Vec<_>>();
    assert_eq!(pending.len(), 3);
    for expected in [
        ("demo: organic", PendingDiblReason::NoFit),
        ("missing_dibl.csv", PendingDiblReason::NoMatch),
        ("ambiguous_dibl.csv", PendingDiblReason::Ambiguous),
    ] {
        assert!(pending.contains(&expected), "missing pending row {expected:?}");
    }
}

/// A second transfer at the primary drain bias, which gives no DIBL fit.
fn no_fit_second(primary_vds: u32, vt: u32) -> Second {
    Second { v_ds: primary_vds, vt }
}

fn dibl_at(name: &str, path: Option<&str>, second: Second) -> DiblImport<Second> {
    DiblImport { source: DiblSource::new(name, path.map(String::from)).unwrap(), second }
}

fn canonical_dibl(name: &str, path: &str) -> DiblSource {
    let mut source = DiblSource::new(name, Some(path.to_string())).unwrap();
    source.resolve_identity("/abs/crate/Cargo.toml");
    source
}

#[test]
fn panic_recovery_counts_the_generation_ordered_dibl_match_set() {
    fn import(path: Option<&str>, marker: u32) -> DiblImport<Second> {
        dibl_at("shared_dibl.csv", path, Second { v_ds: marker, vt: 15 })
    }

    fn recover(imports: Vec<DiblImport<Second>>) -> (State, usize) {
        let mut state = State::new();
        let recovery = DiblRefinementRecovery {
            purpose: DiblRefinementPurpose::Import,
            mode: DiblRefinementMode::Batch,
            pending: imports
                .into_iter()
                .enumerate()
                .map(|(ordinal, import)| DeferredDibl { ordinal, import, reason: PendingDiblReason::WorkerFailed })
                .collect(),
            issues: Vec::new(),
        };
        let recovered = state.recover_dibl_refinement(recovery).recovered;
        (state, recovered)
    }

    let (latest_pathless, recovered) = recover(vec![
        import(Some("lot-a/shared_dibl.csv"), 1),
        import(Some("lot-b/shared_dibl.csv"), 2),
        import(None, 3),
    ]);
    assert_eq!(recovered, 1);
    assert_eq!(latest_pathless.pending_dibls().len(), 1);
    assert_eq!(latest_pathless.pending_dibls()[0].source_path(), None);
    assert_eq!(latest_pathless.pending_dibls()[0].second.v_ds, 3);

    let (latest_pathful, recovered) = recover(vec![
        import(None, 3),
        import(Some("lot-a/shared_dibl.csv"), 1),
        import(Some("lot-b/shared_dibl.csv"), 2),
    ]);
    assert_eq!(recovered, 2);
    assert_eq!(
        latest_pathful.pending_dibls().iter().map(|p| p.source_path()).collect::<Vec<_>>(),
        vec![Some("lot-a/shared_dibl.csv"), Some("lot-b/shared_dibl.csv")]
    );
}

#[test]
fn unmatched_and_ambiguous_dibl_imports_are_recoverable_pending_data() {
    let mut state = State::new();
    add(&mut state, "Id-Vg-high [(2) ; primary].csv");
    add(&mut state, "Id-Vg-low [(2) ; primary].csv");
    let p = plan(
        &state,
        vec![
            dibl_at("missing-low.csv", Some("lot/missing.csv"), fitting_second(15)),
            dibl_at("Id-Vg-VD2V [(2) ; candidate].csv", Some("lot/candidate.csv"), fitting_second(15)),
        ],
        None,
        false,
    );

    assert!(p.jobs.is_empty());
    assert_eq!(p.summary.unmatched, 1);
    assert_eq!(p.summary.ambiguous, 1);
    assert!(state.pending_dibls().is_empty());
    state.commit_dibl_refinement(run(p));
    assert_eq!(
        state.pending_dibls().iter().map(|p| (p.name(), p.reason())).collect::<Vec<_>>(),
        vec![
            ("missing-low.csv", PendingDiblReason::NoMatch),
            ("Id-Vg-VD2V [(2) ; candidate].csv", PendingDiblReason::Ambiguous),
        ]
    );
}

#[test]
fn new_same_source_no_fit_beats_the_detached_pre_job_attachment() {
    let mut state = State::new();
    add(&mut state, "Id-Vg-high [(1) ; primary].csv");
    let same_source = "Id-Vg-low [(1) ; same-source].csv";
    let target = state.selected_device_id();
    let attach = plan(&state, vec![dibl_at(same_source, None, fitting_second(15))], target, true);
    assert!(state.commit_dibl_refinement(run(attach)).action_succeeded);

    let primary_vds = state.selected_entry().unwrap().device().v_ds;
    let newer = no_fit_second(primary_vds, 17);
    let p = plan(
        &state,
        vec![
            dibl_at(same_source, None, newer.clone()),
            dibl_at("Id-Vg-VD2V [(1) ; replacement].csv", None, fitting_second(20)),
        ],
        None,
        false,
    );

    let report = state.commit_dibl_refinement(run(p));

    assert_eq!(report.fitted.len(), 1);
    assert_eq!(report.displaced, 1);
    assert_eq!(state.pending_dibls().len(), 1);
    let pending = &state.pending_dibls()[0];
    assert_eq!(pending.name(), same_source);
    assert_eq!(pending.reason(), PendingDiblReason::NoFit);
    assert_eq!(pending.second.v_ds, primary_vds);
    assert_eq!(pending.second, newer);
}

#[test]
fn later_same_source_success_suppresses_an_earlier_no_fit() {
    let mut state = State::new();
    add(&mut state, "Id-Vg-high [(1) ; primary].csv");
    let source = "Id-Vg-low [(1) ; reload].csv";
    let primary_vds = state.selected_entry().unwrap().device().v_ds;
    let p = plan(
        &state,
        vec![dibl_at(source, None, no_fit_second(primary_vds, 15)), dibl_at(source, None, fitting_second(17))],
        None,
        false,
    );

    let report = state.commit_dibl_refinement(run(p));

    assert_eq!(report.fitted.len(), 1);
    assert_eq!(report.issues.len(), 1);
    assert_eq!(report.issues[0].kind, DiblIssueKind::NoFit);
    assert_eq!(state.selected_entry().unwrap().dibl_name(), Some(source));
    assert!(state.pending_dibls().is_empty());
}

#[test]
fn stale_same_source_success_does_not_suppress_the_latest_import() {
    let mut state = State::new();
    add(&mut state, "Id-Vg-high [(1) ; primary].csv");
    let source = "Id-Vg-low [(1) ; reload].csv";
    let primary_vds = state.selected_entry().unwrap().device().v_ds;
    let p = plan(
        &state,
        vec![dibl_at(source, None, no_fit_second(primary_vds, 15)), dibl_at(source, None, fitting_second(17))],
        None,
        false,
    );
    let result = run(p);
    let mut edited = state.selected_entry().unwrap().device().clone();
    edited.vt += 1;
    assert!(state.commit_selected_device::<(), ()>(edited, true).is_ok());

    let report = state.commit_dibl_refinement(result);

    assert_eq!(report.stale, 2);
    assert!(report.fitted.is_empty());
    assert_eq!(state.selected_entry().unwrap().dibl_name(), None);
    assert_eq!(state.pending_dibls().len(), 1);
    assert_eq!(state.pending_dibls()[0].name(), source);
    assert_eq!(state.pending_dibls()[0].reason(), PendingDiblReason::DeviceChanged);
    assert_eq!(state.pending_dibls()[0].second.v_ds, 1);
}

#[test]
fn deferred_unmatched_and_ambiguous_imports_keep_global_order_on_commit_and_recovery() {
    let mut state = State::new();
    add(&mut state, "Id-Vg-high [(1) ; primary].csv");
    add(&mut state, "Id-Vg-high [(2) ; primary].csv");
    add(&mut state, "Id-Vg-low [(2) ; primary].csv");
    let shared = Some("lot/shared-dibl.csv");
    let matched = || dibl_at("Id-Vg-low [(1) ; candidate].csv", shared, fitting_second(12));
    let unmatched = || dibl_at("missing-low.csv", shared, fitting_second(15));
    let ambiguous = || dibl_at("Id-Vg-VD2V [(2) ; candidate].csv", shared, fitting_second(17));

    let p = plan(&state, vec![matched(), unmatched()], None, false);
    assert!(state.pending_dibls().is_empty());
    let report = state.commit_dibl_refinement(run(p));
    assert_eq!(report.fitted.len(), 1);
    assert_eq!(state.pending_dibls().len(), 1);
    assert_eq!(state.pending_dibls()[0].name(), "missing-low.csv");
    assert_eq!(state.pending_dibls()[0].reason(), PendingDiblReason::NoMatch);

    assert!(state.remove_pending_dibl(0));
    let p = plan(&state, vec![matched(), ambiguous()], None, false);
    state.commit_dibl_refinement(run(p));
    assert_eq!(state.pending_dibls().len(), 1);
    assert_eq!(state.pending_dibls()[0].reason(), PendingDiblReason::Ambiguous);

    assert!(state.remove_pending_dibl(0));
    let p = plan(&state, vec![unmatched(), matched()], None, false);
    state.commit_dibl_refinement(run(p));
    assert!(state.pending_dibls().is_empty());

    let p = plan(&state, vec![matched(), ambiguous()], None, false);
    let report = state.recover_dibl_refinement(p.panic_recovery());
    assert_eq!(report.recovered, 1);
    assert_eq!(state.pending_dibls().len(), 1);
    assert_eq!(state.pending_dibls()[0].name(), "Id-Vg-VD2V [(2) ; candidate].csv");
    assert_eq!(state.pending_dibls()[0].reason(), PendingDiblReason::Ambiguous);

    assert!(state.remove_pending_dibl(0));
    let p = plan(&state, vec![unmatched(), matched()], None, false);
    state.recover_dibl_refinement(p.panic_recovery());
    assert_eq!(state.pending_dibls().len(), 1);
    assert_eq!(state.pending_dibls()[0].reason(), PendingDiblReason::WorkerFailed);
}

#[test]
fn pre_existing_pending_beats_detaching_an_older_same_source_attachment() {
    let mut state = State::new();
    add(&mut state, "device.csv");
    let target = state.selected_device_id();
    let attach = plan(&state, vec![dibl_at("device-low.csv", None, fitting_second(15))], target, true);
    state.commit_dibl_refinement(run(attach));
    let primary_vds = state.selected_entry().unwrap().device().v_ds;
    let newer = no_fit_second(primary_vds, 17);
    state.add_pending_dibl(DiblSource::new("device-low.csv", None).unwrap(), newer.clone(), PendingDiblReason::NoFit);

    let detach = state.plan_dibl_clear(0, DiblRefinementPurpose::Detach).expect("attached DIBL plans a detach");
    let report = state.commit_dibl_refinement(run(detach));

    assert!(report.action_succeeded);
    assert!(state.selected_entry().unwrap().dibl_name().is_none());
    assert_eq!(state.pending_dibls().len(), 1);
    assert_eq!(state.pending_dibls()[0].reason(), PendingDiblReason::NoFit);
    assert_eq!(state.pending_dibls()[0].second, newer);
}

#[test]
fn latest_fresh_same_source_payload_wins_across_grouped_jobs() {
    let mut state = State::new();
    add(&mut state, "Id-Vg-high [(1) ; primary].csv");
    add(&mut state, "Id-Vg-high [(2) ; primary].csv");
    let revisions = state.devices().iter().map(|e| e.revision()).collect::<Vec<_>>();
    let shared = Some("lot/grouped-dibl.csv");
    let first_vds = state.devices()[0].device().v_ds;
    let second_vds = state.devices()[1].device().v_ds;
    let newest = no_fit_second(first_vds, 20);
    let p = plan(
        &state,
        vec![
            dibl_at("Id-Vg-low [(1) ; first].csv", shared, no_fit_second(first_vds, 12)),
            dibl_at("Id-Vg-low [(2) ; middle].csv", shared, no_fit_second(second_vds, 15)),
            dibl_at("Id-Vg-VD2V [(1) ; newest].csv", shared, newest.clone()),
        ],
        None,
        false,
    );

    let report = state.commit_dibl_refinement(run(p));

    assert_eq!(report.issues.len(), 3);
    assert!(!report.action_succeeded);
    assert_eq!(state.devices().iter().map(|e| e.revision()).collect::<Vec<_>>(), revisions);
    assert_eq!(state.pending_dibls().len(), 1);
    assert_eq!(state.pending_dibls()[0].name(), "Id-Vg-VD2V [(1) ; newest].csv");
    assert_eq!(state.pending_dibls()[0].reason(), PendingDiblReason::NoFit);
    assert_eq!(state.pending_dibls()[0].second, newest);
}

#[test]
fn displaced_fresh_fit_keeps_its_original_generation() {
    let mut state = State::new();
    add(&mut state, "Id-Vg-high [(1) ; primary].csv");
    let shared = Some("lot/original-generation.csv");
    let deferred = Second { v_ds: 37, vt: 16 };
    let p = plan(
        &state,
        vec![
            dibl_at("Id-Vg-low [(1) ; accepted].csv", shared, fitting_second(15)),
            dibl_at("missing-low.csv", shared, deferred),
            dibl_at("Id-Vg-VD2V [(1) ; replacement].csv", Some("lot/replacement.csv"), fitting_second(17)),
        ],
        None,
        false,
    );

    let report = state.commit_dibl_refinement(run(p));

    assert_eq!(report.fitted.len(), 2);
    assert_eq!(report.unmatched, 1);
    assert_eq!(report.displaced, 1);
    assert_eq!(state.pending_dibls().len(), 1);
    assert_eq!(state.pending_dibls()[0].name(), "missing-low.csv");
    assert_eq!(state.pending_dibls()[0].reason(), PendingDiblReason::NoMatch);
    assert_eq!(state.pending_dibls()[0].second.v_ds, 37);
}

#[test]
fn ordered_dibl_batch_keeps_the_last_attachment_and_every_displaced_source() {
    let mut state = State::new();
    add(&mut state, "Id-Vg-high [(1) ; primary].csv");
    let target = state.selected_device_id();
    let initial = plan(&state, vec![dibl_at("Id-Vg-low [(1) ; initial].csv", None, fitting_second(15))], target, true);
    assert_eq!(state.commit_dibl_refinement(run(initial)).fitted.len(), 1);

    let names = ["Id-Vg-low [(1) ; first].csv", "Id-Vg-VD2V [(1) ; second].csv"];
    let p = plan(&state, names.iter().map(|n| dibl_at(n, None, fitting_second(15))).collect(), None, false);
    let report = state.commit_dibl_refinement(run(p));

    assert_eq!(report.fitted.len(), 2);
    assert_eq!(report.displaced, 2);
    assert_eq!(state.selected_entry().unwrap().dibl_name(), Some(names[1]));
    assert_eq!(
        state.pending_dibls().iter().map(|p| p.name()).collect::<Vec<_>>(),
        vec!["Id-Vg-low [(1) ; initial].csv", names[0]]
    );
    assert!(state.pending_dibls().iter().all(|p| p.reason() == PendingDiblReason::Detached));
}

#[test]
fn precommand_dibl_displacements_fold_generation_ordered_match_sets() {
    let pending = |path: Option<&str>, vt: u32| PendingDibl {
        source: DiblSource::new("shared-low.csv", path.map(String::from)).unwrap(),
        second: fitting_second(vt),
        reason: PendingDiblReason::Detached,
    };
    let effect = |ordinal: usize, pending: PendingDibl<Second>| PendingEffect::PreCommandDisplacement { ordinal, pending };

    let mut state = State::new();
    state.apply_dibl_effects(vec![effect(2, pending(Some("lot/shared.csv"), 17)), effect(1, pending(Some("lot/shared.csv"), 15))]);
    assert_eq!(state.pending_dibls().len(), 1);
    assert_eq!(state.pending_dibls()[0].second, fitting_second(17));

    let mut state = State::new();
    state.apply_dibl_effects(vec![
        effect(1, pending(Some("lot-a/shared.csv"), 15)),
        effect(2, pending(Some("lot-b/shared.csv"), 16)),
        effect(3, pending(None, 17)),
    ]);
    assert_eq!(state.pending_dibls().len(), 1);
    assert_eq!(state.pending_dibls()[0].source_path(), None);

    let mut state = State::new();
    state.apply_dibl_effects(vec![
        effect(1, pending(None, 15)),
        effect(2, pending(Some("lot-a/shared.csv"), 16)),
        effect(3, pending(Some("lot-b/shared.csv"), 17)),
    ]);
    assert_eq!(
        state.pending_dibls().iter().map(|p| p.source_path().unwrap()).collect::<Vec<_>>(),
        vec!["lot-a/shared.csv", "lot-b/shared.csv"]
    );
}

#[test]
fn cleared_pathless_alias_cannot_destroy_a_distinct_displaced_dibl() {
    let mut state = State::new();
    add(&mut state, "Id-Vg-high [(1) ; primary].csv");
    let name = "Id-Vg-low [(1) ; shared].csv";
    let displaced_second = fitting_second(15);
    let target = state.selected_device_id();
    let attach = plan(&state, vec![dibl_at(name, Some("lot-a/shared.csv"), displaced_second.clone())], target, true);
    state.commit_dibl_refinement(run(attach));
    state.add_pending_dibl(DiblSource::new(name, None).unwrap(), fitting_second(16), PendingDiblReason::NoMatch);

    let replace = plan(&state, vec![dibl_at(name, Some("lot-b/shared.csv"), fitting_second(17))], target, true);
    let report = state.commit_dibl_refinement(run(replace));

    assert_eq!(report.displaced, 1);
    assert_eq!(state.selected_entry().unwrap().dibl_source_path(), Some("lot-b/shared.csv"));
    assert_eq!(state.pending_dibls().len(), 1);
    assert_eq!(state.pending_dibls()[0].source_path(), Some("lot-a/shared.csv"));
    assert_eq!(state.pending_dibls()[0].reason(), PendingDiblReason::Detached);
    assert_eq!(state.pending_dibls()[0].second, displaced_second);
}

#[test]
fn successful_same_source_attach_clears_a_canonical_pending_alias() {
    let mut state = State::new();
    add(&mut state, "device.csv");
    state.add_pending_dibl(canonical_dibl("pending-label.csv", "crate/src/../Cargo.toml"), fitting_second(15), PendingDiblReason::NoMatch);

    let target = state.selected_device_id();
    let p = plan(
        &state,
        vec![DiblImport { source: canonical_dibl("attached-label.csv", "crate/Cargo.toml"), second: fitting_second(15) }],
        target,
        true,
    );
    let report = state.commit_dibl_refinement(run(p));

    assert_eq!(report.fitted.len(), 1);
    assert_eq!(report.displaced, 0);
    assert!(state.pending_dibls().is_empty());
}

#[test]
fn pending_dibl_upsert_uses_canonical_and_pathless_source_identity() {
    let mut state = State::new();
    state.add_pending_dibl(
        canonical_dibl("first-label.csv", "crate/src/../Cargo.toml"),
        Second { v_ds: 25, vt: 15 },
        PendingDiblReason::NoMatch,
    );
    state.add_pending_dibl(
        canonical_dibl("current-label.csv", "crate/Cargo.toml"),
        Second { v_ds: 50, vt: 17 },
        PendingDiblReason::Ambiguous,
    );
    state.add_pending_dibl(
        DiblSource::new("current-label.csv", None).unwrap(),
        Second { v_ds: 75, vt: 20 },
        PendingDiblReason::NoFit,
    );

    assert_eq!(state.pending_dibls().len(), 1);
    let pending = &state.pending_dibls()[0];
    assert_eq!(pending.name(), "current-label.csv");
    assert_eq!(pending.source_path(), None);
    assert_eq!(pending.reason(), PendingDiblReason::NoFit);
    assert_eq!(pending.second.v_ds, 75);
}

#[test]
fn device_science_returns_rejected_dibl_measurement_with_its_source_and_reason() {
    let mut state = State::new();
    add(&mut state, "high.csv");
    let primary_vds = state.selected_entry().unwrap().device().v_ds;
    let rejected = no_fit_second(primary_vds, 15);
    let target = state.selected_device_id();
    let p = plan(&state, vec![dibl_at("low.csv", Some("lot-a/low.csv"), rejected.clone())], target, true);

    let result = run(p);

    let job = &result.jobs[0];
    match &job.operations[0] {
        DiblOperationResult::NoFit { import, message, .. } => {
            assert_eq!(import.source.name(), "low.csv");
            assert_eq!(import.source.path(), Some("lot-a/low.csv"));
            assert_eq!(import.second, rejected);
            assert_eq!(message, "The second transfer uses the primary drain bias.");
        }
        DiblOperationResult::Fitted { .. } => panic!("a second transfer at the primary bias is rejected"),
    }
    assert!(!job.science.has_second_transfer());
    assert!(!job.changed);
}

#[test]
fn panicked_dibl_refinement_recovers_every_input_and_closes_the_busy_slot() {
    let mut state = State::new();
    let mut issues = IngestIssues::new();
    add(&mut state, "Id-Vg-high [(1) ; primary].csv");
    let revision = state.selected_entry().unwrap().revision();
    let names = ["Id-Vg-low [(1) ; first].csv", "Id-Vg-VD2V [(1) ; second].csv"];
    let imports: Vec<_> = names.iter().map(|name| import(name, fitting_second(15))).collect();
    let stems = imports.iter().map(|i| stem(i.source.name())).collect();
    let p = state.plan_dibl_refinement(
        imports,
        stems,
        None,
        false,
        vec![DiblIssue { name: "bad-dibl.csv".into(), message: "missing Vg column".into(), kind: DiblIssueKind::Parse }],
    );

    let report = state.recover_dibl_refinement(p.panic_recovery());
    let message = dibl_failure_message(report.purpose, report.mode, report.recovered);
    record_dibl_issues(&mut issues, report.issues);
    issues.record("Model Fit DIBL refinement".to_string(), message);

    let entry = state.selected_entry().unwrap();
    assert_eq!(entry.revision(), revision);
    assert_eq!(entry.dibl_name(), None);
    assert_eq!(
        state.pending_dibls().iter().map(|p| (p.name(), p.reason())).collect::<Vec<_>>(),
        vec![(names[0], PendingDiblReason::WorkerFailed), (names[1], PendingDiblReason::WorkerFailed)]
    );
    let rows = issues.rows();
    assert_eq!(rows.len(), 2);
    assert!(rows.iter().any(|row| row.name == "bad-dibl.csv"));
    assert!(rows.iter().any(|row| {
        row.name == "Model Fit DIBL refinement"
            && row.message.contains("Kept 2 parsed DIBL measurement(s) pending")
    }));
}
