use paramex_gui::dibl_refinement::{
    DiblCommitReport, DiblFit, DiblIssue, DiblIssueKind, DiblRefinementMode, DiblRefinementPurpose,
};
use paramex_gui::issues::IngestIssues;
use paramex_gui::notices::{
    dibl_completion_toast, dibl_failure_action, dibl_failure_message, output_completion_toast,
    output_failure_action, output_failure_message, output_import_summary, record_dibl_issues, record_output_issues, DiblToastText, OutputToastText, ToastLevel,
    DIBL_NO_MATCH_MESSAGE, OUTPUT_MOVED_TO_PENDING_MESSAGE,
};
use paramex_gui::output_refinement::{OutputCommitReport, OutputIssue, OutputRefinementPurpose};

fn report(
    purpose: DiblRefinementPurpose,
    mode: DiblRefinementMode,
    fitted: Vec<DiblFit<f64>>,
    issues: Vec<DiblIssue>,
) -> DiblCommitReport<f64> {
    DiblCommitReport {
        purpose,
        mode,
        fitted,
        displaced: 0,
        unmatched: 0,
        ambiguous: 0,
        stale: 0,
        commit_errors: 0,
        issues,
        action_succeeded: false,
    }
}

fn plain(text: DiblToastText<f64>) -> String {
    match text {
        DiblToastText::Plain(s) => s,
        DiblToastText::Fitted { .. } => panic!("expected a plain message"),
    }
}

#[test]
fn single_dibl_completion_preserves_detail_and_failure_severity() {
    let mut success = report(
        DiblRefinementPurpose::Import,
        DiblRefinementMode::Single,
        vec![DiblFit { name: "low.csv".into(), second_vds: 2.0, at: 1.25e-8 }],
        Vec::new(),
    );
    success.action_succeeded = true;
    let (level, text) = dibl_completion_toast(&success);
    assert_eq!(level, ToastLevel::Success);
    match text {
        DiblToastText::Fitted { name, second_vds, at, displaced } => {
            assert_eq!(name, "low.csv");
            assert_eq!(second_vds, 2.0);
            assert_eq!(at, 1.25e-8);
            assert!(!displaced);
        }
        DiblToastText::Plain(_) => panic!("a single fit is rendered from its values"),
    }

    let parse = report(
        DiblRefinementPurpose::Import,
        DiblRefinementMode::Single,
        Vec::new(),
        vec![DiblIssue {
            name: "bad.csv".into(),
            message: "missing Vg column".into(),
            kind: DiblIssueKind::Parse,
        }],
    );
    let (level, text) = dibl_completion_toast(&parse);
    assert_eq!(level, ToastLevel::Error);
    assert_eq!(plain(text), "missing Vg column");

    let mut stale = report(
        DiblRefinementPurpose::Import,
        DiblRefinementMode::Single,
        Vec::new(),
        vec![DiblIssue {
            name: "low.csv".into(),
            message: "Device changed while DIBL refinement was running.".into(),
            kind: DiblIssueKind::Stale,
        }],
    );
    stale.stale = 1;
    let (level, text) = dibl_completion_toast(&stale);
    assert_eq!(level, ToastLevel::Warning);
    assert_eq!(
        plain(text),
        "Loaded low.csv but no DIBL fit: Device changed while DIBL refinement was running. Kept as pending."
    );

    let mut removed = report(DiblRefinementPurpose::Remove, DiblRefinementMode::Single, Vec::new(), Vec::new());
    removed.action_succeeded = true;
    let (level, text) = dibl_completion_toast(&removed);
    assert_eq!(level, ToastLevel::Info);
    assert_eq!(plain(text), "Removed attached DIBL measurement.");
}

#[test]
fn mixed_dibl_batch_with_pending_input_is_a_warning() {
    let mut r = report(
        DiblRefinementPurpose::Import,
        DiblRefinementMode::Batch,
        vec![DiblFit { name: "fitted-low.csv".into(), second_vds: 2.0, at: 1.25e-8 }],
        vec![DiblIssue {
            name: "no-fit-low.csv".into(),
            message: "the pair did not improve the fit".into(),
            kind: DiblIssueKind::NoFit,
        }],
    );
    r.unmatched = 1;
    r.action_succeeded = true;
    let (level, text) = dibl_completion_toast(&r);
    assert_eq!(level, ToastLevel::Warning);
    let message = plain(text);
    assert!(message.contains("1 fitted"));
    assert!(message.contains("1 no fit"));
    assert!(message.contains("1 unmatched"));
    assert!(message.contains("First issue: the pair did not improve the fit"));
}

#[test]
fn clean_dibl_batch_reports_every_count() {
    let mut r = report(
        DiblRefinementPurpose::Import,
        DiblRefinementMode::Batch,
        vec![
            DiblFit { name: "a-low.csv".into(), second_vds: 2.0, at: 1.0 },
            DiblFit { name: "b-low.csv".into(), second_vds: 2.0, at: 1.0 },
        ],
        Vec::new(),
    );
    r.displaced = 12;
    let (level, text) = dibl_completion_toast(&r);
    assert_eq!(level, ToastLevel::Success);
    assert_eq!(
        plain(text),
        "DIBL batch: 2 fitted, 12 displaced, 0 no fit, 0 unmatched, 0 ambiguous, 0 parse error(s), 0 stale, 0 commit error(s)."
    );
}

#[test]
fn single_dibl_without_a_candidate_explains_why() {
    let mut r = report(DiblRefinementPurpose::Import, DiblRefinementMode::Single, Vec::new(), Vec::new());
    r.unmatched = 1;
    let (level, text) = dibl_completion_toast(&r);
    assert_eq!(level, ToastLevel::Warning);
    assert_eq!(plain(text), format!("{DIBL_NO_MATCH_MESSAGE} Kept as pending."));
    let empty = report(DiblRefinementPurpose::Import, DiblRefinementMode::Single, Vec::new(), Vec::new());
    assert_eq!(plain(dibl_completion_toast(&empty).1), "No DIBL result was produced.");
    let mut attach = report(DiblRefinementPurpose::AttachPending, DiblRefinementMode::Single, Vec::new(), Vec::new());
    attach.action_succeeded = true;
    attach.displaced = 1;
    assert_eq!(
        plain(dibl_completion_toast(&attach).1),
        "Attached pending DIBL. Previous DIBL measurement moved to pending."
    );
}

fn output_report(purpose: OutputRefinementPurpose) -> OutputCommitReport {
    OutputCommitReport {
        purpose,
        attached: 0,
        unfittable: 0,
        unmatched: 0,
        ambiguous: 0,
        displaced: 0,
        issues: Vec::new(),
        action_succeeded: false,
    }
}

#[test]
fn output_completion_levels_follow_the_outcome() {
    let mut clean = output_report(OutputRefinementPurpose::Import);
    clean.attached = 2;
    assert!(matches!(output_completion_toast(&clean), (ToastLevel::Success, OutputToastText::Summary)));
    clean.unfittable = 1;
    assert!(matches!(output_completion_toast(&clean), (ToastLevel::Warning, OutputToastText::Summary)));

    let mut detached = output_report(OutputRefinementPurpose::Detach);
    detached.action_succeeded = true;
    match output_completion_toast(&detached) {
        (ToastLevel::Info, OutputToastText::Plain(text)) => assert_eq!(text, OUTPUT_MOVED_TO_PENDING_MESSAGE),
        _ => panic!("a detach is reported as information"),
    }

    let mut refused = output_report(OutputRefinementPurpose::Remove);
    refused.issues.push(OutputIssue { name: "dev".into(), message: "cannot".into(), persist: false });
    match output_completion_toast(&refused) {
        (ToastLevel::Warning, OutputToastText::Plain(text)) => assert_eq!(text, "cannot"),
        _ => panic!("a refused removal is a warning"),
    }
    match output_completion_toast(&output_report(OutputRefinementPurpose::AttachPending)) {
        (ToastLevel::Warning, OutputToastText::Plain(text)) => {
            assert_eq!(text, "Could not attach the pending output.")
        }
        _ => panic!("a failed attachment is a warning"),
    }
}

#[test]
fn only_persistent_issues_enter_the_issue_list() {
    let mut list = IngestIssues::new();
    record_output_issues(
        &mut list,
        vec![
            OutputIssue { name: "a.csv".into(), message: "parse".into(), persist: true },
            OutputIssue { name: "b.csv".into(), message: "stale".into(), persist: false },
        ],
    );
    record_dibl_issues(
        &mut list,
        vec![
            DiblIssue { name: "c.csv".into(), message: "no fit".into(), kind: DiblIssueKind::NoFit },
            DiblIssue { name: "d.csv".into(), message: "stale".into(), kind: DiblIssueKind::Stale },
            DiblIssue { name: "e.csv".into(), message: "bad".into(), kind: DiblIssueKind::Parse },
            DiblIssue { name: "f.csv".into(), message: "commit".into(), kind: DiblIssueKind::Commit },
        ],
    );
    let rows = list.rows();
    let names: Vec<_> = rows.iter().map(|r| r.name).collect();
    assert_eq!(names, vec!["a.csv", "c.csv", "e.csv"]);
    let ids: Vec<_> = rows.iter().map(|r| r.id).collect();
    assert_eq!(ids, vec!["ingest-error-0", "ingest-error-1", "ingest-error-2"]);
}

#[test]
fn failed_workers_name_their_action() {
    assert_eq!(output_failure_action(OutputRefinementPurpose::AttachPending), "Pending-output attachment");
    assert_eq!(
        dibl_failure_action(DiblRefinementPurpose::Import, DiblRefinementMode::Batch),
        "DIBL batch refinement"
    );
    assert_eq!(
        dibl_failure_action(DiblRefinementPurpose::Import, DiblRefinementMode::Single),
        "DIBL refinement"
    );
}

#[test]
fn failure_messages_name_the_action_and_the_recovered_count() {
    assert_eq!(
        output_failure_message(OutputRefinementPurpose::Import, 2),
        "Output refinement failed. Kept 2 parsed output measurement(s) pending."
    );
    assert_eq!(
        dibl_failure_message(DiblRefinementPurpose::Import, DiblRefinementMode::Batch, 12),
        "DIBL batch refinement failed. Kept 12 parsed DIBL measurement(s) pending."
    );
    assert_eq!(
        dibl_failure_message(DiblRefinementPurpose::Detach, DiblRefinementMode::Single, 0),
        "DIBL detachment failed. Kept 0 parsed DIBL measurement(s) pending."
    );
}

#[test]
fn the_import_summary_lists_every_count() {
    let mut report = output_report(OutputRefinementPurpose::Import);
    report.attached = 3;
    report.unmatched = 1;
    report.displaced = 2;
    report.issues.push(OutputIssue {
        name: "bad.csv".to_string(),
        message: "missing Vd column".to_string(),
        persist: true,
    });
    assert_eq!(
        output_import_summary(&report),
        "Output: 3 attached, 0 unfittable, 1 unmatched, 0 ambiguous, 2 displaced, 1 error(s)."
    );
}

fn bad_header() -> OutputIssue {
    OutputIssue { name: "bad.xlsx".to_string(), message: "bad output header".to_string(), persist: true }
}

#[test]
fn output_summary_surfaces_the_first_error_only_when_nothing_attached() {
    let mut report = output_report(OutputRefinementPurpose::Import);
    report.issues.push(bad_header());
    let total_fail = output_import_summary(&report);
    assert!(total_fail.contains("First error: bad output header"), "{total_fail}");

    let mut report = output_report(OutputRefinementPurpose::Import);
    report.attached = 1;
    report.issues.push(bad_header());
    let mixed = output_import_summary(&report);
    assert!(!mixed.contains("First error"), "{mixed}");
}

#[test]
fn output_summary_reports_ambiguous_matches() {
    let mut report = output_report(OutputRefinementPurpose::Import);
    report.ambiguous = 2;
    let summary = output_import_summary(&report);
    assert!(summary.contains("2 ambiguous"), "{summary}");
}

#[test]
fn accepted_no_fit_output_is_reported_as_attached_and_unfittable() {
    let mut report = output_report(OutputRefinementPurpose::Import);
    report.attached = 1;
    report.unfittable = 1;
    let summary = output_import_summary(&report);
    assert!(summary.contains("1 attached"), "{summary}");
    assert!(summary.contains("1 unfittable"), "{summary}");

    report.unfittable = 0;
    assert!(output_import_summary(&report).contains("0 unfittable"));
}
