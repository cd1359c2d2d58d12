//! Column specs of the four TLM tables, the selected-group tile labels, and the
//! TLM page's layout metrics (logical points). Headers carry units in markup;
//! cells stay bare.

use vstd::prelude::*;

verus! {

/// How a cell renders: plain text, a coloured ok/error status, or warnings.
#[derive(Clone, Copy, PartialEq, Eq, Debug, Structural)]
pub enum CellKind {
    Text,
    Status,
    Warnings,
}

/// One table column: markup header, minimum width, render kind, whether it
/// right-aligns (numeric columns) and whether it yields width (prose columns
/// that clip with hover).
#[derive(Clone, Copy, PartialEq, Eq, Debug)]
pub struct TlmCol {
    pub label: &'static str,
    pub min_w: u32,
    pub kind: CellKind,
    pub right: bool,
    pub yields: bool,
}

/// Mathematical model of a column.
pub struct ColSpec {
    pub label: Seq<char>,
    pub min_w: u32,
    pub kind: CellKind,
    pub right: bool,
    pub yields: bool,
}

pub open spec fn col_view(c: TlmCol) -> ColSpec {
    ColSpec { label: c.label@, min_w: c.min_w, kind: c.kind, right: c.right, yields: c.yields }
}

pub open spec fn text_col(label: Seq<char>, min_w: u32) -> ColSpec {
    ColSpec { label, min_w, kind: CellKind::Text, right: false, yields: false }
}

pub open spec fn num_col(label: Seq<char>, min_w: u32) -> ColSpec {
    ColSpec { label, min_w, kind: CellKind::Text, right: true, yields: false }
}

pub open spec fn prose_col(label: Seq<char>, min_w: u32) -> ColSpec {
    ColSpec { label, min_w, kind: CellKind::Text, right: false, yields: true }
}

pub open spec fn warnings_col(label: Seq<char>, min_w: u32) -> ColSpec {
    ColSpec { label, min_w, kind: CellKind::Warnings, right: false, yields: true }
}

fn text(label: &'static str, min_w: u32) -> (r: TlmCol)
    ensures
        col_view(r) == text_col(label@, min_w),
{
    TlmCol { label, min_w, kind: CellKind::Text, right: false, yields: false }
}

fn num(label: &'static str, min_w: u32) -> (r: TlmCol)
    ensures
        col_view(r) == num_col(label@, min_w),
{
    TlmCol { label, min_w, kind: CellKind::Text, right: true, yields: false }
}

fn prose(label: &'static str, min_w: u32) -> (r: TlmCol)
    ensures
        col_view(r) == prose_col(label@, min_w),
{
    TlmCol { label, min_w, kind: CellKind::Text, right: false, yields: true }
}

fn warnings(label: &'static str, min_w: u32) -> (r: TlmCol)
    ensures
        col_view(r) == warnings_col(label@, min_w),
{
    TlmCol { label, min_w, kind: CellKind::Warnings, right: false, yields: true }
}

/// Results table: one row per group at the chosen gate voltage.
pub open spec fn result_cols_spec() -> Seq<ColSpec> {
    seq![
        text_col("group"@, 70),
        num_col("intercept (2R<sub>c</sub>) (\u{2126})"@, 56),
        num_col("R<sub>c</sub>/contact (\u{2126})"@, 56),
        num_col("slope (\u{2126}/\u{00B5}m)"@, 56),
        num_col("R<sup>2</sup>"@, 56),
        num_col("lengths"@, 50),
        warnings_col("warnings"@, 90),
    ]
}

/// Sweep table: one row per group and gate voltage.
pub open spec fn sweep_cols_spec() -> Seq<ColSpec> {
    seq![
        text_col("group"@, 70),
        num_col("V<sub>G</sub> (V)"@, 56),
        num_col("intercept (2R<sub>c</sub>) (\u{2126})"@, 56),
        num_col("R<sub>c</sub>/contact (\u{2126})"@, 56),
        num_col("slope (\u{2126}/\u{00B5}m)"@, 56),
        num_col("R<sup>2</sup>"@, 56),
        num_col("lengths"@, 50),
        warnings_col("warnings"@, 90),
    ]
}

/// Length-points table: one row per group and channel length.
pub open spec fn length_cols_spec() -> Seq<ColSpec> {
    seq![
        text_col("group"@, 70),
        num_col("L (\u{00B5}m)"@, 50),
        num_col("V<sub>G</sub> (V)"@, 56),
        num_col("I (A)"@, 56),
        num_col("R<sub>tot</sub> (\u{2126})"@, 56),
        num_col("I median (A)"@, 56),
        num_col("R<sub>tot</sub> median (\u{2126})"@, 56),
        num_col("devices"@, 50),
        prose_col("file"@, 110),
    ]
}

/// File-status table: the file and its pass/fail signal.
pub open spec fn status_cols_spec() -> Seq<ColSpec> {
    seq![
        prose_col("file"@, 130),
        ColSpec { label: "status"@, min_w: 56, kind: CellKind::Status, right: false, yields: false },
    ]
}

pub open spec fn cols_match(r: Seq<TlmCol>, spec: Seq<ColSpec>) -> bool {
    r.len() == spec.len() && forall|i: int| 0 <= i < r.len() ==> col_view(#[trigger] r[i]) == spec[i]
}

pub fn result_cols() -> (r: Vec<TlmCol>)
    ensures
        cols_match(r@, result_cols_spec()),
{
    let mut v = Vec::new();
    v.push(text("group", 70));
    v.push(num("intercept (2R<sub>c</sub>) (\u{2126})", 56));
    v.push(num("R<sub>c</sub>/contact (\u{2126})", 56));
    v.push(num("slope (\u{2126}/\u{00B5}m)", 56));
    v.push(num("R<sup>2</sup>", 56));
    v.push(num("lengths", 50));
    v.push(warnings("warnings", 90));
    v
}

pub fn sweep_cols() -> (r: Vec<TlmCol>)
    ensures
        cols_match(r@, sweep_cols_spec()),
{
    let mut v = Vec::new();
    v.push(text("group", 70));
    v.push(num("V<sub>G</sub> (V)", 56));
    v.push(num("intercept (2R<sub>c</sub>) (\u{2126})", 56));
    v.push(num("R<sub>c</sub>/contact (\u{2126})", 56));
    v.push(num("slope (\u{2126}/\u{00B5}m)", 56));
    v.push(num("R<sup>2</sup>", 56));
    v.push(num("lengths", 50));
    v.push(warnings("warnings", 90));
    v
}

pub fn length_cols() -> (r: Vec<TlmCol>)
    ensures
        cols_match(r@, length_cols_spec()),
{
    let mut v = Vec::new();
    v.push(text("group", 70));
    v.push(num("L (\u{00B5}m)", 50));
    v.push(num("V<sub>G</sub> (V)", 56));
    v.push(num("I (A)", 56));
    v.push(num("R<sub>tot</sub> (\u{2126})", 56));
    v.push(num("I median (A)", 56));
    v.push(num("R<sub>tot</sub> median (\u{2126})", 56));
    v.push(num("devices", 50));
    v.push(prose("file", 110));
    v
}

pub fn status_cols() -> (r: Vec<TlmCol>)
    ensures
        cols_match(r@, status_cols_spec()),
{
    let mut v = Vec::new();
    v.push(prose("file", 130));
    v.push(TlmCol { label: "status", min_w: 56, kind: CellKind::Status, right: false, yields: false });
    v
}

/// Only the prose columns (warnings, file paths) yield width, and exactly the
/// numeric columns right-align.
pub proof fn lemma_column_alignment()
    ensures
        forall|i: int| 0 <= i < 7 ==> (#[trigger] result_cols_spec()[i]).yields == (i == 6),
        forall|i: int| 0 <= i < 7 ==> (#[trigger] result_cols_spec()[i]).right == (1 <= i < 6),
        forall|i: int| 0 <= i < 8 ==> (#[trigger] sweep_cols_spec()[i]).yields == (i == 7),
        forall|i: int| 0 <= i < 8 ==> (#[trigger] sweep_cols_spec()[i]).right == (1 <= i < 7),
        forall|i: int| 0 <= i < 9 ==> (#[trigger] length_cols_spec()[i]).yields == (i == 8),
        forall|i: int| 0 <= i < 9 ==> (#[trigger] length_cols_spec()[i]).right == (1 <= i < 8),
        forall|i: int| 0 <= i < 2 ==> (#[trigger] status_cols_spec()[i]).yields == (i == 0),
        forall|i: int| 0 <= i < 2 ==> !(#[trigger] status_cols_spec()[i]).right,
{
}

// Selected-group tile labels: the reported max-current fit and its median
// diagnostics carry the same qualifier scheme.
pub const TILE_RCONTACT: &'static str = "intercept (2R<sub>c</sub>) (max)";
pub const TILE_RC_PER_CONTACT: &'static str = "R<sub>c</sub>/contact (max)";
pub const TILE_SLOPE: &'static str = "slope (max)";
pub const TILE_R2: &'static str = "R<sup>2</sup> (max)";
pub const TILE_RCONTACT_MED: &'static str = "intercept (2R<sub>c</sub>) (median)";
pub const TILE_RC_PER_CONTACT_MED: &'static str = "R<sub>c</sub>/contact (median)";
pub const TILE_SLOPE_MED: &'static str = "slope (median)";
pub const TILE_R2_MED: &'static str = "R<sup>2</sup> (median)";

/// The eight tile labels, in display order.
pub fn tile_labels() -> (r: Vec<&'static str>)
    ensures
        r@.len() == 8,
        r@[0] == TILE_RCONTACT,
        r@[1] == TILE_RC_PER_CONTACT,
        r@[2] == TILE_SLOPE,
        r@[3] == TILE_R2,
        r@[4] == TILE_RCONTACT_MED,
        r@[5] == TILE_RC_PER_CONTACT_MED,
        r@[6] == TILE_SLOPE_MED,
        r@[7] == TILE_R2_MED,
{
    let mut v = Vec::new();
    v.push(TILE_RCONTACT);
    v.push(TILE_RC_PER_CONTACT);
    v.push(TILE_SLOPE);
    v.push(TILE_R2);
    v.push(TILE_RCONTACT_MED);
    v.push(TILE_RC_PER_CONTACT_MED);
    v.push(TILE_SLOPE_MED);
    v.push(TILE_R2_MED);
    v
}

/// Every tile label paired with the same placeholder value (no group
/// selected).
pub fn empty_group_tiles(value: &str) -> (r: Vec<(&'static str, String)>)
    ensures
        r@.len() == 8,
        forall|i: int| 0 <= i < 8 ==> (#[trigger] r@[i]).1@ == value@,
        r@[0].0 == TILE_RCONTACT,
        r@[1].0 == TILE_RC_PER_CONTACT,
        r@[2].0 == TILE_SLOPE,
        r@[3].0 == TILE_R2,
        r@[4].0 == TILE_RCONTACT_MED,
        r@[5].0 == TILE_RC_PER_CONTACT_MED,
        r@[6].0 == TILE_SLOPE_MED,
        r@[7].0 == TILE_R2_MED,
{
    let labels = tile_labels();
    let mut out: Vec<(&'static str, String)> = Vec::new();
    let mut i: usize = 0;
    while i < labels.len()
        invariant
            labels@.len() == 8,
            i <= 8,
            out@.len() == i,
            forall|k: int| 0 <= k < i ==> (#[trigger] out@[k]).0 == labels@[k] && out@[k].1@ == value@,
        decreases 8 - i,
    {
        out.push((labels[i], crate::text::owned(value)));
        i = i + 1;
    }
    out
}

/// Height of one selected-group tile row.
pub const TLM_SELECTED_ROW_H: u32 = 24;

/// Gap between the tile rows and the status line.
pub const TLM_SELECTED_STATUS_GAP: u32 = 8;

/// DATA card floor (left top).
pub const TLM_DATA_CARD_HEIGHT: u32 = 164;

/// Floor for the GROUPS list (left bottom).
pub const TLM_GROUPS_MIN_HEIGHT: u32 = 140;

/// ANALYSIS card height (left middle).
pub const TLM_ANALYSIS_HEIGHT: u32 = 128;

/// The selected-group card body: eight tile rows and the status gap.
pub fn selected_card_body_height() -> (r: u32)
    ensures
        r == 8 * TLM_SELECTED_ROW_H + TLM_SELECTED_STATUS_GAP,
        r == 200,
{
    8 * TLM_SELECTED_ROW_H + TLM_SELECTED_STATUS_GAP
}

} // verus!
