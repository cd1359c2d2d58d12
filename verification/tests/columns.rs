use paramex_gui::columns::{
    length_cols, result_cols, status_cols, sweep_cols, CellKind, TLM_SELECTED_ROW_H,
    TLM_SELECTED_STATUS_GAP,
};
use paramex_gui::columns::{empty_group_tiles, selected_card_body_height, tile_labels};

#[test]
fn no_literal_underscore_or_unicode_subscript_in_labels() {
    let all: Vec<&str> = result_cols()
        .iter()
        .chain(sweep_cols().iter())
        .chain(length_cols().iter())
        .chain(status_cols().iter())
        .map(|c| c.label)
        .collect();
    for label in all {
        assert!(!label.contains('_'), "literal underscore in {label:?}");
        assert!(
            !label
                .chars()
                .any(|c| ('\u{2080}'..='\u{209C}').contains(&c)),
            "raw Unicode sub/superscript in {label:?}"
        );
    }
}

#[test]
fn numeric_columns_right_align_text_columns_left() {
    let result = result_cols();
    let sweep = sweep_cols();
    let length = length_cols();
    let status = status_cols();
    assert!(!result[0].right && !result[6].right);
    assert!(result[1..6].iter().all(|c| c.right));
    assert!(!sweep[0].right && !sweep[7].right);
    assert!(sweep[1..7].iter().all(|c| c.right));
    assert!(!length[0].right && !length[8].right);
    assert!(length[1..8].iter().all(|c| c.right));
    assert!(status.iter().all(|c| !c.right));
}

#[test]
fn only_prose_columns_yield_width() {
    let result = result_cols();
    let sweep = sweep_cols();
    let length = length_cols();
    let status = status_cols();
    assert!(result[6].yields && !result[..6].iter().any(|c| c.yields));
    assert!(sweep[7].yields && !sweep[..7].iter().any(|c| c.yields));
    assert!(length[8].yields && !length[..8].iter().any(|c| c.yields));
    assert!(status[0].yields && !status[1].yields);
}

#[test]
fn column_counts_match_row_builders() {
    assert_eq!(result_cols().len(), 7);
    assert_eq!(sweep_cols().len(), 8);
    assert_eq!(length_cols().len(), 9);
    assert_eq!(status_cols().len(), 2);
}

#[test]
fn selected_rows_and_status_gap_keep_the_200_point_body() {
    assert_eq!(8 * TLM_SELECTED_ROW_H + TLM_SELECTED_STATUS_GAP, 200);
    assert_eq!(selected_card_body_height(), 200);
}

#[test]
fn status_column_renders_the_status_kind_and_warnings_render_as_badges() {
    assert_eq!(status_cols()[1].kind, CellKind::Status);
    assert_eq!(status_cols()[1].label, "status");
    assert_eq!(result_cols()[6].kind, CellKind::Warnings);
    assert_eq!(result_cols()[1].label, "intercept (2R<sub>c</sub>) (\u{2126})");
    assert_eq!(length_cols()[8].min_w, 110);
}

#[test]
fn empty_tiles_pair_every_label_with_the_placeholder() {
    let tiles = empty_group_tiles("-");
    let labels = tile_labels();
    assert_eq!(tiles.len(), 8);
    for (i, (label, value)) in tiles.iter().enumerate() {
        assert_eq!(*label, labels[i]);
        assert_eq!(value, "-");
    }
    assert_eq!(labels[3], "R<sup>2</sup> (max)");
}
