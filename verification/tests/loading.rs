use paramex_gui::issues::IngestIssues;
use paramex_gui::loading::{files_fitted_toast, FilesFittedTally, FittedOutcome, UNFITTABLE_TRANSFER_MESSAGE};
use paramex_gui::notices::ToastLevel;
use paramex_gui::modelfit::{DeviceFacts, ModelFitState};
use paramex_gui::source::PrimaryTransferSource;

type State = ModelFitState<String, Vec<u32>, u32>;

fn fitted(name: &str) -> (PrimaryTransferSource, FittedOutcome<String>) {
    (
        PrimaryTransferSource::new(name, None).unwrap(),
        FittedOutcome::Fitted(
            format!("device {name}"),
            DeviceFacts {
                name: name.to_string(),
                stem: name.to_string(),
                has_output_curves: false,
                has_second_transfer: false,
            },
        ),
    )
}

#[test]
fn a_batch_installs_new_files_and_keeps_every_failure_in_the_issue_list() {
    let mut state = State::new();
    let mut issues = IngestIssues::new();
    let tally = state.install_fitted_files(
        &mut issues,
        vec![
            fitted("a.csv"),
            (PrimaryTransferSource::new("flat.csv", None).unwrap(), FittedOutcome::Unfittable),
            fitted("a.csv"),
            (
                PrimaryTransferSource::new("bad.csv", None).unwrap(),
                FittedOutcome::ParseError("missing Vg column".to_string()),
            ),
            fitted("b.csv"),
            (
                PrimaryTransferSource::new("worse.csv", None).unwrap(),
                FittedOutcome::ParseError("empty file".to_string()),
            ),
        ],
    );
    assert_eq!(tally.fitted, 2);
    assert_eq!(tally.already_loaded, 1);
    assert_eq!(tally.unfittable, 1);
    assert_eq!(tally.errors, 2);
    assert_eq!(tally.first_error.as_deref(), Some("missing Vg column"));
    assert_eq!(state.device_count(), 2);
    let rows = issues.rows();
    let recorded: Vec<_> = rows.iter().map(|r| (r.name, r.message)).collect();
    assert_eq!(
        recorded,
        vec![
            ("flat.csv", UNFITTABLE_TRANSFER_MESSAGE),
            ("bad.csv", "missing Vg column"),
            ("worse.csv", "empty file"),
        ]
    );
}

#[test]
fn the_batch_toast_counts_every_kind_and_explains_an_empty_load() {
    let tally = FilesFittedTally {
        fitted: 2,
        already_loaded: 1,
        unfittable: 0,
        errors: 3,
        first_error: Some("missing Vg column".to_string()),
    };
    let (level, text) = files_fitted_toast(&tally);
    assert_eq!(level, ToastLevel::Success);
    assert_eq!(text, "Loaded 2 device(s), 1 already loaded, 3 failed.");

    let nothing = FilesFittedTally {
        fitted: 0,
        already_loaded: 0,
        unfittable: 1,
        errors: 1,
        first_error: Some("missing Vg column".to_string()),
    };
    let (level, text) = files_fitted_toast(&nothing);
    assert_eq!(level, ToastLevel::Warning);
    assert_eq!(text, "Loaded 0 device(s), 1 without a fit, 1 failed. missing Vg column");
}

#[test]
fn fit_ready_failures_are_classified_without_refitting() {
    let mut state = State::new();
    let mut issues = IngestIssues::new();
    let tally = state.install_fitted_files(
        &mut issues,
        vec![
            (PrimaryTransferSource::new("flat.csv", None).unwrap(), FittedOutcome::Unfittable),
            (
                PrimaryTransferSource::new("bad.csv", None).unwrap(),
                FittedOutcome::ParseError("missing Vg column".into()),
            ),
        ],
    );
    assert_eq!(state.device_count(), 0);
    assert_eq!(issues.rows().len(), 2);
    assert_eq!((tally.unfittable, tally.errors), (1, 1));
}

#[test]
fn fit_ready_batch_counts_a_canonical_alias_as_already_loaded() {
    let original_path = "crate/Cargo.toml";
    let alias_path = "crate/src/../Cargo.toml";
    let source = |path: &str| {
        let mut source = PrimaryTransferSource::new("device.csv", Some(path.to_string())).unwrap();
        source.resolve_identity("/abs/crate/Cargo.toml");
        source
    };
    let fitted = |vt: u32| {
        FittedOutcome::Fitted(
            format!("device vt {vt}"),
            DeviceFacts {
                name: "device.csv".to_string(),
                stem: "device".to_string(),
                has_output_curves: false,
                has_second_transfer: false,
            },
        )
    };
    let mut state = State::new();
    let mut issues = IngestIssues::new();
    let tally = state.install_fitted_files(
        &mut issues,
        vec![(source(original_path), fitted(2)), (source(alias_path), fitted(3))],
    );
    assert_eq!(state.device_count(), 1);
    assert_eq!(state.devices()[0].transfer_source_path(), Some(original_path));
    assert_eq!(issues.rows().len(), 0);
    assert_eq!((tally.fitted, tally.already_loaded), (1, 1));
}
