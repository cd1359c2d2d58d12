//! Compact-model registry behind the model selector: AOSTFT/UMEM (the
//! default) and the Level 62-derived LTPS model.

use vstd::prelude::*;

verus! {

/// The compact models a device can be fitted with.
#[derive(Clone, Copy, Debug, PartialEq, Eq, Structural)]
pub enum FitModel {
    Aostft,
    Level62,
}

/// One entry of the model menu.
#[derive(Clone, Copy, Debug, PartialEq, Eq)]
pub struct ModelEntry {
    pub name: &'static str,
    pub fit_model: FitModel,
}

/// Index of the AOSTFT / UMEM entry, the default model.
pub const AOSTFT_INDEX: usize = 0;

/// Index of the Level 62-derived (LTPS) entry.
pub const LEVEL62_INDEX: usize = 1;

/// Number of entries in the model menu.
pub const FIT_MODEL_COUNT: usize = 2;

/// The model of menu entry `i`.
pub open spec fn model_at(i: int) -> FitModel {
    if i == 0 {
        FitModel::Aostft
    } else {
        FitModel::Level62
    }
}

/// The display name of menu entry `i`.
pub open spec fn model_name_at(i: int) -> Seq<char> {
    if i == 0 {
        "AOSTFT / UMEM"@
    } else {
        "Level 62 / LTPS"@
    }
}

/// The model menu, in display order.
pub fn fit_models() -> (r: Vec<ModelEntry>)
    ensures
        r@.len() == FIT_MODEL_COUNT,
        forall|i: int|
            0 <= i < r@.len() ==> (#[trigger] r@[i]).fit_model == model_at(i) && r@[i].name@
                == model_name_at(i),
{
    proof {
        reveal_strlit("AOSTFT / UMEM");
        reveal_strlit("Level 62 / LTPS");
    }
    let mut v = Vec::new();
    v.push(ModelEntry { name: "AOSTFT / UMEM", fit_model: FitModel::Aostft });
    v.push(ModelEntry { name: "Level 62 / LTPS", fit_model: FitModel::Level62 });
    v
}

/// The menu entry at `i`.
pub fn fit_model_entry(i: usize) -> (r: Option<ModelEntry>)
    ensures
        r is Some <==> i < FIT_MODEL_COUNT,
        r matches Some(e) ==> e.fit_model == model_at(i as int) && e.name@ == model_name_at(
            i as int,
        ),
{
    proof {
        reveal_strlit("AOSTFT / UMEM");
        reveal_strlit("Level 62 / LTPS");
    }
    if i == 0 {
        Some(ModelEntry { name: "AOSTFT / UMEM", fit_model: FitModel::Aostft })
    } else if i == 1 {
        Some(ModelEntry { name: "Level 62 / LTPS", fit_model: FitModel::Level62 })
    } else {
        None
    }
}

} // verus!
