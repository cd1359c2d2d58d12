//! Row, provenance, pairing and table state of a thin-film-transistor
//! characterization workbench, with its rules proved.

pub mod text;
pub mod source;
pub mod issues;
pub mod pairing;
pub mod pending;
pub mod models;
pub mod modelfit;
pub mod output_refinement;
pub mod dibl_refinement;
pub mod setup_refinement;
pub mod notices;
pub mod row_actions;
pub mod loading;
pub mod columns;
pub mod tlm;
