use paramex_gui::modelfit::{
    CvCommitError, DeviceFacts, DeviceInstallError, DeviceInstallOutcome, ModelFitState,
    PendingDiblReason, PendingOutputReason, SelectedMutationError,
};
use paramex_gui::models::{fit_models, FitModel, AOSTFT_INDEX, FIT_MODEL_COUNT, LEVEL62_INDEX};
use paramex_gui::modelfit::DeviceScience;
use paramex_gui::source::{DiblSource, OutputSource, PrimaryTransferSource};

type State = ModelFitState<String, Vec<u32>, u32>;

fn facts(name: &str, has_output_curves: bool) -> DeviceFacts {
    DeviceFacts {
        name: name.to_string(),
        stem: name.to_string(),
        has_output_curves,
        has_second_transfer: false,
    }
}

fn primary(name: &str) -> PrimaryTransferSource {
    PrimaryTransferSource::new(name, None).expect("test primary source is visibly named")
}

fn add(state: &mut State, name: &str) {
    assert_eq!(
        state
            .install_fitted_device(format!("science of {name}"), facts(name, false), primary(name), None)
            .expect("test transfer has no output curves"),
        DeviceInstallOutcome::Installed
    );
}

fn names(state: &State) -> Vec<String> {
    state.devices().iter().map(|entry| entry.transfer_name().to_string()).collect()
}

#[test]
fn first_installed_row_is_selected_and_checkbox_state_is_gui_local() {
    let mut state = State::new();
    add(&mut state, "a");
    assert_eq!(state.selected_index(), Some(0));
    assert!(state.set_device_checked(0, true));
    assert!(state.devices()[0].is_checked());
    assert_eq!(state.devices()[0].revision().get(), 0);
}

#[test]
fn install_requires_visible_source_metadata_for_output_curves() {
    let mut state = State::new();
    let error = state
        .install_fitted_device("dev".to_string(), facts("a", true), primary("a"), None)
        .unwrap_err();
    assert_eq!(error, DeviceInstallError::OutputSourceRequired);
    assert!(state.is_empty());
}

#[test]
fn install_rejects_output_source_for_transfer_only_device() {
    let mut state = State::new();
    let source = OutputSource::new("a_output.csv", None).unwrap();
    let error = state
        .install_fitted_device("dev".to_string(), facts("a", false), primary("a"), Some(source))
        .unwrap_err();
    assert_eq!(error, DeviceInstallError::OutputSourceWithoutCurves);
    assert!(state.is_empty());
}

#[test]
fn installed_output_source_is_nonempty_and_visible() {
    assert_eq!(OutputSource::new("  ", None), Err(paramex_gui::source::OutputSourceError::EmptyName));
    let mut state = State::new();
    let source = OutputSource::new("a_output.csv", None).unwrap();
    assert_eq!(
        state
            .install_fitted_device("dev".to_string(), facts("a", true), primary("a"), Some(source))
            .unwrap(),
        DeviceInstallOutcome::Installed
    );
    assert_eq!(state.devices()[0].output_name(), Some("a_output.csv"));
}

#[test]
fn primary_source_requires_a_visible_name_matching_the_fitted_device() {
    let mut state = State::new();
    let error = state
        .install_fitted_device(
            "dev".to_string(),
            facts("device.csv", false),
            PrimaryTransferSource::new("other.csv", None).unwrap(),
            None,
        )
        .unwrap_err();
    assert_eq!(error, DeviceInstallError::PrimarySourceNameMismatch);
    assert!(state.is_empty());
}

#[test]
fn primary_identity_handles_canonical_aliases_pathless_fallback_and_distinct_paths() {
    let mut canonical = State::new();
    let mut original = PrimaryTransferSource::new("Cargo.toml", Some("gui/Cargo.toml".into())).unwrap();
    original.resolve_identity("/repo/gui/Cargo.toml");
    let mut alias = PrimaryTransferSource::new("Cargo.toml", Some("gui/src/../Cargo.toml".into())).unwrap();
    alias.resolve_identity("/repo/gui/Cargo.toml");
    assert_eq!(
        canonical.install_fitted_device("d1".into(), facts("Cargo.toml", false), original, None).unwrap(),
        DeviceInstallOutcome::Installed
    );
    assert_eq!(
        canonical.install_fitted_device("d2".into(), facts("Cargo.toml", false), alias, None).unwrap(),
        DeviceInstallOutcome::AlreadyLoaded
    );
    assert_eq!(canonical.device_count(), 1);

    let mut pathless = State::new();
    let pathed = PrimaryTransferSource::new("Cargo.toml", Some("gui/Cargo.toml".into())).unwrap();
    assert_eq!(
        pathless.install_fitted_device("d1".into(), facts("Cargo.toml", false), pathed, None).unwrap(),
        DeviceInstallOutcome::Installed
    );
    assert_eq!(
        pathless
            .install_fitted_device("d2".into(), facts("Cargo.toml", false), primary("Cargo.toml"), None)
            .unwrap(),
        DeviceInstallOutcome::AlreadyLoaded
    );
    assert_eq!(pathless.device_count(), 1);

    let mut distinct = State::new();
    let gui = PrimaryTransferSource::new("Cargo.toml", Some("gui/Cargo.toml".into())).unwrap();
    let core = PrimaryTransferSource::new("Cargo.toml", Some("core/Cargo.toml".into())).unwrap();
    assert_eq!(
        distinct.install_fitted_device("d1".into(), facts("Cargo.toml", false), gui, None).unwrap(),
        DeviceInstallOutcome::Installed
    );
    assert_eq!(
        distinct.install_fitted_device("d2".into(), facts("Cargo.toml", false), core, None).unwrap(),
        DeviceInstallOutcome::Installed
    );
    assert_eq!(distinct.device_count(), 2);
}

#[test]
fn duplicate_primary_admission_is_a_complete_no_op() {
    let mut state = State::new();
    add(&mut state, "device.csv");
    add(&mut state, "selected.csv");
    state.select(1);
    assert!(state.set_device_checked(0, true));
    state.add_pending_output(
        OutputSource::new("orphan_output.csv", None).unwrap(),
        vec![1],
        PendingOutputReason::NoMatch,
    );
    let before_id = state.devices()[0].id();
    let before_revision = state.devices()[0].revision();
    assert_eq!(
        state
            .install_fitted_device("other".into(), facts("device.csv", false), primary("device.csv"), None)
            .unwrap(),
        DeviceInstallOutcome::AlreadyLoaded
    );
    assert_eq!(state.device_count(), 2);
    assert_eq!(state.selected_index(), Some(1));
    assert_eq!(state.devices()[0].id(), before_id);
    assert_eq!(state.devices()[0].revision(), before_revision);
    assert_eq!(state.devices()[0].device(), "science of device.csv");
    assert!(state.devices()[0].is_checked());
    assert_eq!(state.pending_outputs().len(), 1);
    assert_eq!(state.pending_outputs()[0].name(), "orphan_output.csv");
}

#[test]
fn invalid_row_selection_and_removal_are_inert() {
    let mut state = State::new();
    state.select(0);
    assert_eq!(state.selected_index(), None);
    assert_eq!(state.remove_devices(&Vec::new()), 0);
}

#[test]
fn clear_drops_rows_pending_files_and_selection() {
    let mut state = State::new();
    add(&mut state, "a");
    state.add_pending_output(
        OutputSource::new("orphan_output.csv", None).unwrap(),
        vec![0; 12],
        PendingOutputReason::NoMatch,
    );
    state.add_pending_dibl(
        DiblSource::new("orphan_dibl.csv", None).unwrap(),
        12,
        PendingDiblReason::NoMatch,
    );
    state.clear();
    assert!(state.is_empty());
    assert!(state.pending_outputs().is_empty());
    assert!(state.pending_dibls().is_empty());
    assert_eq!(state.selected_index(), None);
}

#[test]
fn removing_checked_rows_keeps_the_selected_survivor() {
    let mut state = State::new();
    add(&mut state, "a");
    add(&mut state, "b");
    state.select(1);
    assert!(state.set_device_checked(0, true));
    assert_eq!(state.remove_selected_or_checked(), 1);
    assert_eq!(state.selected_entry().map(|entry| entry.transfer_name()), Some("b"));
}

#[test]
fn removing_selected_row_selects_the_first_survivor() {
    let mut state = State::new();
    add(&mut state, "a");
    add(&mut state, "b");
    state.select(1);
    assert_eq!(state.remove_selected_or_checked(), 1);
    assert_eq!(state.selected_entry().map(|entry| entry.transfer_name()), Some("a"));
}

#[test]
fn keep_checked_removes_only_unchecked_rows() {
    let mut state = State::new();
    add(&mut state, "a");
    add(&mut state, "b");
    assert!(state.set_device_checked(1, true));
    assert_eq!(state.keep_checked_devices(), Some(1));
    assert_eq!(state.devices().len(), 1);
    assert_eq!(state.devices()[0].transfer_name(), "b");
}

#[test]
fn keep_checked_requires_a_checked_row() {
    let mut state = State::new();
    add(&mut state, "a");
    assert_eq!(state.keep_checked_devices(), None);
}

#[test]
fn model_menu_only_accepts_registry_entries() {
    let mut state = State::new();
    assert!(state.set_selected_model(LEVEL62_INDEX));
    assert!(!state.set_selected_model(FIT_MODEL_COUNT));
}

#[test]
fn selected_model_remains_a_gui_menu_index() {
    let mut state = State::new();
    assert_eq!(state.selected_model(), AOSTFT_INDEX);
    assert!(state.set_selected_model(LEVEL62_INDEX));
    assert_eq!(state.selected_fit_model(), FitModel::Level62);
    assert!(state.selected_model_is_level62());
}

#[test]
fn level62_is_the_second_supported_model() {
    let models = fit_models();
    assert_eq!(models.len(), 2);
    assert_eq!(LEVEL62_INDEX, 1);
    assert_eq!(models[LEVEL62_INDEX].name, "Level 62 / LTPS");
    assert_eq!(models[AOSTFT_INDEX].fit_model, FitModel::Aostft);
    assert_eq!(models[LEVEL62_INDEX].fit_model, FitModel::Level62);
}

#[test]
fn selected_mutations_require_a_selected_row() {
    let mut state = State::new();
    assert_eq!(
        state.commit_selected_device::<(), ()>("edited".into(), true),
        Err(SelectedMutationError::NoDeviceSelected)
    );
    let no_target: Result<(), CvCommitError<(), ()>> =
        Err(CvCommitError::Mutation(SelectedMutationError::NoDeviceSelected));
    assert!(no_target.is_err());
}

#[test]
fn identities_are_monotonic_and_only_scientific_mutations_bump_revision() {
    let mut state = State::new();
    add(&mut state, "a_transfer.csv");
    add(&mut state, "b_transfer.csv");
    let first_id = state.devices()[0].id();
    let second_id = state.devices()[1].id();
    assert!(second_id.get() > first_id.get());
    let first_revision = state.devices()[0].revision();

    state.select(1);
    state.set_device_checked(0, true);
    assert!(state.set_selected_model(1));
    assert_eq!(state.devices()[0].revision(), first_revision);
    assert_eq!(state.devices()[1].revision().get(), 0);

    state.select(0);
    assert!(state.commit_selected_device::<(), ()>("edited".into(), true).is_ok());
    assert_eq!(state.devices()[0].revision().get(), first_revision.get() + 1);
    let changed_revision = state.devices()[0].revision();
    assert!(state.commit_selected_device::<(), ()>("same".into(), false).is_ok());
    assert_eq!(state.devices()[0].revision(), changed_revision);

    state.clear();
    add(&mut state, "c_transfer.csv");
    assert!(state.devices()[0].id().get() > second_id.get());
}

#[test]
fn cv_commit_uses_the_click_time_device_not_the_current_selection() {
    let mut state = State::new();
    add(&mut state, "first.csv");
    add(&mut state, "second.csv");
    let target = state.devices()[0].token();
    state.select(1);
    let idx = state.current_index(target).expect("click-time row is current");
    assert_eq!(idx, 0);
    state.commit_device_at(idx, "cox committed".into(), true);
    assert_eq!(state.devices()[0].device(), "cox committed");
    assert_eq!(state.devices()[1].device(), "science of second.csv");
    assert_eq!(state.selected_index(), Some(1));
}

#[test]
fn cv_commit_rejects_a_scientifically_changed_target() {
    let mut state = State::new();
    add(&mut state, "first.csv");
    let target = state.devices()[0].token();
    state.commit_device_at(0, "edited".into(), true);
    assert_eq!(state.current_index(target), None);
    assert_eq!(
        state.commit_cv_result::<(), ()>(Some(target), Ok(("cox".into(), true))),
        Err(CvCommitError::DeviceChanged)
    );
    assert_eq!(state.devices()[0].device(), "edited");
}

#[test]
fn cv_commit_rejects_a_removed_click_time_target() {
    let mut state = State::new();
    add(&mut state, "first.csv");
    let target = state.devices()[0].token();
    assert_eq!(state.remove_devices(&vec![true]), 1);
    assert_eq!(state.current_index(target), None);
    assert_eq!(state.selected_index(), None);
    assert_eq!(
        state.commit_cv_result::<(), ()>(Some(target), Ok(("cox".into(), true))),
        Err(CvCommitError::DeviceChanged)
    );
}

#[test]
fn pending_outputs_upsert_by_source_identity() {
    let mut state = State::new();
    state.add_pending_output(OutputSource::new("a.csv", None).unwrap(), vec![1], PendingOutputReason::NoMatch);
    state.add_pending_output(OutputSource::new("b.csv", None).unwrap(), vec![2], PendingOutputReason::NoMatch);
    state.add_pending_output(
        OutputSource::new("a.csv", Some("lot/a.csv".into())).unwrap(),
        vec![3],
        PendingOutputReason::Detached,
    );
    let rows: Vec<_> = state.pending_outputs().iter().map(|p| (p.name().to_string(), p.reason())).collect();
    assert_eq!(
        rows,
        vec![
            ("a.csv".to_string(), PendingOutputReason::Detached),
            ("b.csv".to_string(), PendingOutputReason::NoMatch)
        ]
    );
    assert_eq!(state.pending_outputs()[0].source_path(), Some("lot/a.csv"));
    assert!(state.remove_pending_output(0));
    assert!(!state.remove_pending_output(5));
    assert_eq!(state.pending_outputs().len(), 1);
    assert_eq!(PendingOutputReason::DiblConflict.label(), "DIBL conflict");
    assert_eq!(PendingDiblReason::NoFit.label(), "No fit");
}

#[test]
fn removal_mask_remaps_the_selection() {
    let mut state = State::new();
    for name in ["a", "b", "c", "d"] {
        add(&mut state, name);
    }
    state.select(2);
    assert_eq!(state.remove_devices(&vec![true, false, false, true]), 2);
    assert_eq!(names(&state), vec!["b", "c"]);
    assert_eq!(state.selected_index(), Some(1));
}

fn transfer_only_science() -> DeviceScience<String> {
    DeviceScience::new("high device".to_string(), facts("high.csv", false), primary("high.csv"), None, None)
        .expect("transfer-only science")
}

fn with_second(name: &str) -> DeviceFacts {
    DeviceFacts { has_second_transfer: true, ..facts(name, false) }
}

#[test]
fn device_science_dibl_attachment_and_detachment_keep_provenance_atomic() {
    let science = transfer_only_science();
    let source = DiblSource::new("low.csv", None).unwrap();
    assert!(matches!(
        DeviceScience::new(science.device().clone(), facts("high.csv", false), primary("high.csv"), None, Some(source.duplicate())),
        Err(DeviceInstallError::DiblSourceWithoutSecondTransfer)
    ));

    let (science, displaced) = science.with_second_replaced(source, "high device + low".to_string());
    assert!(displaced.is_none());
    assert!(science.has_second_transfer());
    assert!(matches!(
        DeviceScience::new(science.device().clone(), with_second("high.csv"), primary("high.csv"), None, None),
        Err(DeviceInstallError::DiblSourceRequired)
    ));

    let (science, detached) = science.with_second_detached("high device".to_string());
    assert_eq!(detached.name(), "low.csv");
    assert!(!science.has_second_transfer());
    assert_eq!(science.device(), "high device");
}

#[test]
fn different_source_dibl_replacement_returns_prior_measurement_and_provenance() {
    let science = transfer_only_science();
    let (science, displaced) = science
        .with_second_replaced(DiblSource::new("low-a.csv", Some("lot-a/low.csv".into())).unwrap(), "a".to_string());
    assert!(displaced.is_none());
    let (science, displaced) = science
        .with_second_replaced(DiblSource::new("low-b.csv", Some("lot-b/low.csv".into())).unwrap(), "b".to_string());
    let displaced = displaced.expect("different source returns the prior DIBL source");
    assert_eq!(displaced.name(), "low-a.csv");
    assert_eq!(displaced.path(), Some("lot-a/low.csv"));
    assert!(science.has_second_transfer());
}

#[test]
fn canonical_same_source_dibl_reload_supersedes_without_displacement() {
    let canonical = |name: &str, path: &str| {
        let mut source = DiblSource::new(name, Some(path.to_string())).unwrap();
        source.resolve_identity("/abs/crate/Cargo.toml");
        source
    };
    let science = transfer_only_science();
    let (science, _) = science.with_second_replaced(canonical("old-label.csv", "crate/Cargo.toml"), "old".to_string());
    let (science, displaced) =
        science.with_second_replaced(canonical("new-label.csv", "crate/src/../Cargo.toml"), "new".to_string());
    assert!(displaced.is_none());
    assert_eq!(science.device(), "new");
}

#[test]
fn unchanged_cox_does_not_advance_the_scientific_revision() {
    let mut state = State::new();
    add(&mut state, "first.csv");
    let device = state.selected_entry().unwrap().device().clone();
    let revision = state.selected_entry().unwrap().revision();
    assert!(state.commit_selected_device::<(), ()>(device, false).is_ok());
    assert_eq!(state.selected_entry().unwrap().revision(), revision);
}

#[test]
fn selected_cox_update_preserves_dc_fit_state() {
    let mut state = State::new();
    add(&mut state, "first.csv");
    add(&mut state, "second.csv");
    let revision = state.selected_entry().unwrap().revision();
    let edited = format!("{} with Cox 2.0e-4", state.selected_entry().unwrap().device());
    assert!(state.commit_selected_device::<(), ()>(edited.clone(), true).is_ok());
    let entry = state.selected_entry().unwrap();
    assert_eq!(entry.device(), &edited);
    assert_eq!(entry.transfer_name(), "first.csv");
    assert_eq!(entry.revision().get(), revision.get() + 1);
    assert_eq!(state.devices()[1].revision().get(), 0);
}

#[test]
fn cv_result_commit_checks_the_target_then_the_answer() {
    let mut state = State::new();
    add(&mut state, "first.csv");
    add(&mut state, "second.csv");
    let target = state.devices()[0].token();
    assert_eq!(
        state.commit_cv_result::<u8, ()>(None, Ok(("x".into(), true))),
        Err(CvCommitError::Mutation(SelectedMutationError::NoDeviceSelected))
    );
    assert_eq!(
        state.commit_cv_result::<u8, ()>(Some(target), Err(7)),
        Err(CvCommitError::Mutation(SelectedMutationError::Input(7)))
    );
    assert_eq!(state.devices()[0].device(), "science of first.csv");
    assert_eq!(state.devices()[0].revision(), target.revision());
    assert_eq!(state.commit_cv_result::<u8, ()>(Some(target), Ok(("same".into(), false))), Ok(0));
    assert_eq!(state.devices()[0].device(), "same");
    assert_eq!(state.devices()[0].revision(), target.revision());
    assert_eq!(state.commit_cv_result::<u8, ()>(Some(target), Ok(("new cox".into(), true))), Ok(0));
    assert_eq!(state.devices()[0].device(), "new cox");
    assert_eq!(state.devices()[0].revision().get(), target.revision().get() + 1);
    assert_eq!(state.devices()[1].device(), "science of second.csv");
    assert_eq!(
        state.commit_cv_result::<u8, ()>(Some(target), Ok(("again".into(), true))),
        Err(CvCommitError::DeviceChanged)
    );
    assert_eq!(state.devices()[0].device(), "new cox");
}

#[test]
fn selected_outcome_commit_needs_a_selection_and_an_accepted_value() {
    let mut state = State::new();
    assert_eq!(
        state.commit_selected_outcome::<u8, ()>(Ok(("x".into(), true))),
        Err(SelectedMutationError::NoDeviceSelected)
    );
    add(&mut state, "first.csv");
    add(&mut state, "second.csv");
    let revision = state.selected_entry().unwrap().revision();
    assert_eq!(
        state.commit_selected_outcome::<u8, ()>(Err(3)),
        Err(SelectedMutationError::Input(3))
    );
    assert_eq!(state.selected_entry().unwrap().revision(), revision);
    assert_eq!(state.selected_entry().unwrap().device(), "science of first.csv");
    assert_eq!(state.commit_selected_outcome::<u8, ()>(Ok(("same".into(), false))), Ok(()));
    assert_eq!(state.selected_entry().unwrap().revision(), revision);
    assert_eq!(state.commit_selected_outcome::<u8, ()>(Ok(("cox 2e-4".into(), true))), Ok(()));
    assert_eq!(state.selected_entry().unwrap().device(), "cox 2e-4");
    assert_eq!(state.selected_entry().unwrap().revision().get(), revision.get() + 1);
    assert_eq!(state.devices()[1].revision().get(), 0);
}
