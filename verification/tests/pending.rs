use paramex_gui::issues::IngestIssues;
use paramex_gui::modelfit::{PendingOutput, PendingOutputReason};
use paramex_gui::pending::{apply_pending_effects, upsert_match_set, PendingEffect};
use paramex_gui::source::OutputSource;

fn row(name: &str, path: Option<&str>, curves: u32, reason: PendingOutputReason) -> PendingOutput<u32> {
    PendingOutput {
        source: OutputSource::new(name, path.map(String::from)).unwrap(),
        curves,
        reason,
    }
}

fn view(rows: &[PendingOutput<u32>]) -> Vec<(String, u32, PendingOutputReason)> {
    rows.iter().map(|r| (r.name().to_string(), r.curves, r.reason())).collect()
}

#[test]
fn upsert_replaces_the_whole_match_set_at_its_earliest_row() {
    let mut rows = vec![
        row("a.csv", None, 1, PendingOutputReason::NoMatch),
        row("b.csv", None, 2, PendingOutputReason::NoMatch),
        row("a.csv", Some("lot/a.csv"), 3, PendingOutputReason::Ambiguous),
        row("c.csv", None, 4, PendingOutputReason::NoMatch),
    ];
    upsert_match_set(&mut rows, row("a.csv", None, 9, PendingOutputReason::Detached));
    assert_eq!(
        view(&rows),
        vec![
            ("a.csv".to_string(), 9, PendingOutputReason::Detached),
            ("b.csv".to_string(), 2, PendingOutputReason::NoMatch),
            ("c.csv".to_string(), 4, PendingOutputReason::NoMatch),
        ]
    );
    upsert_match_set(&mut rows, row("d.csv", None, 5, PendingOutputReason::NoMatch));
    assert_eq!(rows.len(), 4);
    assert_eq!(rows[3].name(), "d.csv");
}

#[test]
fn fresh_effects_apply_in_generation_order_with_the_clear_first() {
    let mut rows: Vec<PendingOutput<u32>> = Vec::new();
    let effects = vec![
        PendingEffect::FreshPending { ordinal: 2, pending: row("x.csv", None, 2, PendingOutputReason::NoMatch) },
        PendingEffect::FreshClear { ordinal: 1, source: OutputSource::new("x.csv", None).unwrap() },
        PendingEffect::FreshPending { ordinal: 1, pending: row("x.csv", None, 1, PendingOutputReason::Detached) },
    ];
    apply_pending_effects(&mut rows, effects);
    assert_eq!(view(&rows), vec![("x.csv".to_string(), 2, PendingOutputReason::NoMatch)]);
}

#[test]
fn displaced_rows_return_ahead_of_newer_rows_unless_superseded() {
    let mut rows = vec![row("old.csv", None, 1, PendingOutputReason::NoMatch)];
    let effects = vec![
        PendingEffect::CurrentDetach(row("detached.csv", None, 7, PendingOutputReason::Detached)),
        PendingEffect::PreCommandDisplacement { ordinal: 3, pending: row("late.csv", None, 3, PendingOutputReason::Detached) },
        PendingEffect::PreCommandDisplacement { ordinal: 1, pending: row("early.csv", None, 1, PendingOutputReason::Detached) },
        PendingEffect::PreCommandDisplacement { ordinal: 2, pending: row("gone.csv", None, 2, PendingOutputReason::Detached) },
        PendingEffect::FreshClear { ordinal: 4, source: OutputSource::new("gone.csv", None).unwrap() },
        PendingEffect::CurrentDetach(row("old.csv", None, 8, PendingOutputReason::Detached)),
    ];
    apply_pending_effects(&mut rows, effects);
    assert_eq!(
        view(&rows),
        vec![
            ("early.csv".to_string(), 1, PendingOutputReason::Detached),
            ("late.csv".to_string(), 3, PendingOutputReason::Detached),
            ("old.csv".to_string(), 1, PendingOutputReason::NoMatch),
            ("detached.csv".to_string(), 7, PendingOutputReason::Detached),
        ]
    );
}

#[test]
fn dismissing_a_fresh_record_restores_the_list() {
    let mut list = IngestIssues::new();
    list.record("a.csv".into(), "one".into());
    let before: Vec<_> = list.rows().iter().map(|r| (r.id.to_string(), r.name.to_string())).collect();
    list.record("b.csv".into(), "two".into());
    assert!(list.dismiss("ingest-error-1"));
    let after: Vec<_> = list.rows().iter().map(|r| (r.id.to_string(), r.name.to_string())).collect();
    assert_eq!(before, after);
}

#[test]
fn untouched_rows_stay_in_order_and_files_stay_distinct() {
    let mut rows = vec![
        row("a.csv", None, 1, PendingOutputReason::NoMatch),
        row("b.csv", None, 2, PendingOutputReason::NoMatch),
        row("c.csv", None, 3, PendingOutputReason::NoMatch),
        row("d.csv", None, 4, PendingOutputReason::NoMatch),
    ];
    let effects = vec![
        PendingEffect::FreshClear { ordinal: 1, source: OutputSource::new("b.csv", None).unwrap() },
        PendingEffect::FreshPending { ordinal: 2, pending: row("d.csv", None, 9, PendingOutputReason::Ambiguous) },
        PendingEffect::CurrentDetach(row("c.csv", None, 8, PendingOutputReason::Detached)),
        PendingEffect::PreCommandDisplacement { ordinal: 1, pending: row("e.csv", None, 5, PendingOutputReason::Detached) },
    ];
    apply_pending_effects(&mut rows, effects);
    assert_eq!(
        view(&rows),
        vec![
            ("e.csv".to_string(), 5, PendingOutputReason::Detached),
            ("a.csv".to_string(), 1, PendingOutputReason::NoMatch),
            ("c.csv".to_string(), 3, PendingOutputReason::NoMatch),
            ("d.csv".to_string(), 9, PendingOutputReason::Ambiguous),
        ]
    );
}
