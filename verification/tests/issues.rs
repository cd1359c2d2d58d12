use paramex_gui::issues::IngestIssues;

#[test]
fn recorded_issues_get_sequential_ids_and_dismiss_by_id() {
    let mut issues = IngestIssues::new();
    assert!(!issues.has_errors());
    issues.record("a.csv".to_string(), "missing Vg column".to_string());
    issues.record("b.csv".to_string(), "missing Id column".to_string());
    let rows = issues.rows();
    assert_eq!(rows.len(), 2);
    assert_eq!(rows[0].id, "ingest-error-0");
    assert_eq!(rows[1].id, "ingest-error-1");
    assert_eq!(rows[1].name, "b.csv");
    assert_eq!(rows[1].message, "missing Id column");
    assert!(issues.dismiss("ingest-error-0"));
    assert!(!issues.dismiss("ingest-error-0"));
    let rows = issues.rows();
    assert_eq!(rows.len(), 1);
    assert_eq!(rows[0].name, "b.csv");
}

#[test]
fn clear_counts_rows_and_numbering_continues() {
    let mut issues = IngestIssues::default();
    for i in 0..12 {
        issues.record(format!("f{i}.csv"), "bad".to_string());
    }
    assert_eq!(issues.rows()[10].id, "ingest-error-10");
    assert_eq!(issues.clear(), 12);
    assert!(!issues.has_errors());
    issues.record("g.csv".to_string(), "bad".to_string());
    assert_eq!(issues.rows()[0].id, "ingest-error-12");
}
