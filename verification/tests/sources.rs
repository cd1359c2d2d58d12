use paramex_gui::source::{
    visible_source_name, DiblSource, DiblSourceError, OutputSource, OutputSourceError,
    PrimaryTransferSource, PrimaryTransferSourceError,
};

#[test]
fn dibl_source_requires_a_visible_name() {
    assert_eq!(DiblSource::new("  ", None), Err(DiblSourceError::EmptyName));
    let source = DiblSource::new("low_vds.csv", Some("lot/low_vds.csv".into())).unwrap();
    assert_eq!(source.name(), "low_vds.csv");
    assert_eq!(source.path(), Some("lot/low_vds.csv"));
}

#[test]
fn primary_and_output_sources_refuse_blank_names() {
    assert_eq!(
        PrimaryTransferSource::new("  ", None),
        Err(PrimaryTransferSourceError::EmptyName)
    );
    assert_eq!(OutputSource::new("\t\n", None), Err(OutputSourceError::EmptyName));
    assert_eq!(OutputSource::new("", None), Err(OutputSourceError::EmptyName));
    // U+3000 ideographic space is whitespace too.
    assert_eq!(OutputSource::new("\u{3000}", None), Err(OutputSourceError::EmptyName));
    assert!(OutputSource::new(" a ", None).is_ok());
}

#[test]
fn source_identity_compares_paths_and_falls_back_to_names() {
    let a = OutputSource::new("x.csv", Some("lot-a/x.csv".into())).unwrap();
    let b = OutputSource::new("x.csv", Some("lot-b/x.csv".into())).unwrap();
    let pathless = OutputSource::new("x.csv", None).unwrap();
    assert!(!a.same_as(&b));
    assert!(a.same_as(&pathless));
    assert!(pathless.same_as(&b));
    let mut alias = OutputSource::new("y.csv", Some("lot-a/../lot-a/x.csv".into())).unwrap();
    assert!(!a.same_as(&alias));
    alias.resolve_identity("lot-a/x.csv");
    assert!(a.same_as(&alias));
    assert_eq!(alias.path(), Some("lot-a/../lot-a/x.csv"));
}

#[test]
fn visible_name_falls_back_to_path_then_placeholder() {
    assert_eq!(visible_source_name("a.csv", "dir/a.csv"), "a.csv");
    assert_eq!(visible_source_name(" ", "dir/a.csv"), "dir/a.csv");
    assert_eq!(visible_source_name(" ", " "), "(unnamed file)");
}

#[test]
fn primary_source_from_path_uses_the_file_name() {
    let s = PrimaryTransferSource::from_path("lot/dev_transfer.csv");
    assert_eq!(s.name(), "dev_transfer.csv");
    assert_eq!(s.path(), Some("lot/dev_transfer.csv"));
    let parts = PrimaryTransferSource::from_path_parts("  ", None);
    assert_eq!(parts.name(), "(unnamed file)");
    let parts = PrimaryTransferSource::from_path_parts("dir/..", None);
    assert_eq!(parts.name(), "dir/..");
}

#[test]
fn primary_source_from_path_covers_edge_paths() {
    assert_eq!(PrimaryTransferSource::from_path("").name(), "(unnamed file)");
    assert_eq!(PrimaryTransferSource::from_path("   ").name(), "(unnamed file)");
    assert_eq!(PrimaryTransferSource::from_path("dev.csv").name(), "dev.csv");
    assert_eq!(PrimaryTransferSource::from_path("lot7/").name(), "lot7");
    assert_eq!(PrimaryTransferSource::from_path("/").name(), "/");
    assert_eq!(PrimaryTransferSource::from_path("lot/..").name(), "lot/..");
}
