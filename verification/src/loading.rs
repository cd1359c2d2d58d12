//! Installing a batch of fitted transfer files: each fitted device becomes a
//! row unless its file is already loaded; files without a fit and files that
//! failed to parse are counted and kept in the issue list.

use vstd::prelude::*;
use crate::issues::IngestIssues;
use crate::modelfit::{science_error, DeviceEntry, DeviceFacts, DeviceInstallOutcome, ModelFitState};
use crate::source::{same_named, ProvenanceView};
use crate::notices::{recorded_rows, ToastLevel};
use crate::source::PrimaryTransferSource;
use crate::text::{count_clause, decimal, owned, push_count_clause, push_decimal, push_str};

verus! {

/// Issue text for a transfer file without an extractable region.
pub const UNFITTABLE_TRANSFER_MESSAGE: &'static str = "No extractable above-threshold region.";

/// What the worker made of one transfer file.
pub enum FittedOutcome<D> {
    /// The fitted device and the facts this library reads of it.
    Fitted(D, DeviceFacts),
    /// The file parsed but has no region to fit.
    Unfittable,
    /// The file did not parse; the parser's message.
    ParseError(String),
}

/// The counts a batch reports, and the first parser message.
pub struct FilesFittedTally {
    pub fitted: usize,
    pub already_loaded: usize,
    pub unfittable: usize,
    pub errors: usize,
    pub first_error: Option<String>,
}

pub open spec fn count_fitted<D>(outcomes: Seq<(PrimaryTransferSource, FittedOutcome<D>)>) -> nat
    decreases outcomes.len(),
{
    if outcomes.len() == 0 {
        0
    } else {
        count_fitted(outcomes.drop_last()) + if outcomes.last().1 is Fitted {
            1nat
        } else {
            0nat
        }
    }
}

pub open spec fn count_unfittable<D>(outcomes: Seq<(PrimaryTransferSource, FittedOutcome<D>)>) -> nat
    decreases outcomes.len(),
{
    if outcomes.len() == 0 {
        0
    } else {
        count_unfittable(outcomes.drop_last()) + if outcomes.last().1 is Unfittable {
            1nat
        } else {
            0nat
        }
    }
}

pub open spec fn count_errors<D>(outcomes: Seq<(PrimaryTransferSource, FittedOutcome<D>)>) -> nat
    decreases outcomes.len(),
{
    if outcomes.len() == 0 {
        0
    } else {
        count_errors(outcomes.drop_last()) + if outcomes.last().1 is ParseError {
            1nat
        } else {
            0nat
        }
    }
}

/// The first parser message of the batch.
pub open spec fn first_error<D>(outcomes: Seq<(PrimaryTransferSource, FittedOutcome<D>)>) -> Option<Seq<char>>
    decreases outcomes.len(),
{
    if outcomes.len() == 0 {
        None
    } else {
        match first_error(outcomes.drop_last()) {
            Some(m) => Some(m),
            None => match outcomes.last().1 {
                FittedOutcome::ParseError(m) => Some(m@),
                _ => None,
            },
        }
    }
}

/// The issues a batch records: each file without a fit, and each parser
/// message, under the file's name, in order.
pub open spec fn batch_issues<D>(outcomes: Seq<(PrimaryTransferSource, FittedOutcome<D>)>) -> Seq<(Seq<char>, Seq<char>)>
    decreases outcomes.len(),
{
    if outcomes.len() == 0 {
        Seq::empty()
    } else {
        let last = outcomes.last();
        batch_issues(outcomes.drop_last()) + match last.1 {
            FittedOutcome::Fitted(_, _) => Seq::empty(),
            FittedOutcome::Unfittable => seq![(last.0@.name, UNFITTABLE_TRANSFER_MESSAGE@)],
            FittedOutcome::ParseError(m) => seq![(last.0@.name, m@)],
        }
    }
}

/// Every fitted device agrees with its primary source and has no attached
/// measurement yet.
pub open spec fn installable<D>(outcomes: Seq<(PrimaryTransferSource, FittedOutcome<D>)>) -> bool {
    forall|k: int|
        0 <= k < outcomes.len() ==> match (#[trigger] outcomes[k]).1 {
            FittedOutcome::Fitted(_, f) => science_error(
                f.name@,
                f.has_output_curves,
                f.has_second_transfer,
                outcomes[k].0@,
                false,
                false,
            ) is None,
            _ => true,
        }
}

/// Some provenance of `ps` names the file described by `pv`.
pub open spec fn named_in(ps: Seq<ProvenanceView>, pv: ProvenanceView) -> bool {
    exists|i: int| 0 <= i < ps.len() && same_named(#[trigger] ps[i], pv)
}

/// The primary provenance of each row, in order.
pub open spec fn primaries<D>(rows: Seq<DeviceEntry<D>>) -> Seq<ProvenanceView> {
    rows.map_values(|e: DeviceEntry<D>| e.science_spec().primary())
}

/// The rows a batch adds, in order, as (primary provenance, device): each
/// fitted file whose primary file neither a row of `loaded` nor an earlier
/// file of the batch already names.
pub open spec fn batch_installs<D>(
    loaded: Seq<ProvenanceView>,
    outcomes: Seq<(PrimaryTransferSource, FittedOutcome<D>)>,
) -> Seq<(ProvenanceView, D)>
    decreases outcomes.len(),
{
    if outcomes.len() == 0 {
        Seq::empty()
    } else {
        let prev = batch_installs(loaded, outcomes.drop_last());
        let last = outcomes.last();
        match last.1 {
            FittedOutcome::Fitted(d, _) => if named_in(
                loaded + prev.map_values(|x: (ProvenanceView, D)| x.0),
                last.0@,
            ) {
                prev
            } else {
                prev.push((last.0@, d))
            },
            _ => prev,
        }
    }
}

proof fn lemma_counts_bounded<D>(outcomes: Seq<(PrimaryTransferSource, FittedOutcome<D>)>)
    ensures
        count_fitted(outcomes) + count_unfittable(outcomes) + count_errors(outcomes) == outcomes.len(),
        batch_issues(outcomes).len() == count_unfittable(outcomes) + count_errors(outcomes),
    decreases outcomes.len(),
{
    if outcomes.len() > 0 {
        lemma_counts_bounded(outcomes.drop_last());
    }
}

impl<D, C, T> ModelFitState<D, C, T> {
    /// Installs a batch of fitted transfer files in order and tallies it:
    /// every fitted device is either a new row or a file already loaded; each
    /// file without a fit and each parser failure is counted and recorded.
    pub fn install_fitted_files(
        &mut self,
        issues: &mut IngestIssues,
        outcomes: Vec<(PrimaryTransferSource, FittedOutcome<D>)>,
    ) -> (r: FilesFittedTally)
        requires
            old(self).wf(),
            old(issues).wf(),
            installable(outcomes@),
            old(self).next_id() + outcomes@.len() < u64::MAX,
            old(issues).next_number() + outcomes@.len() < u64::MAX,
        ensures
            final(self).wf(),
            final(issues).wf(),
            r.fitted + r.already_loaded == count_fitted(outcomes@),
            r.unfittable == count_unfittable(outcomes@),
            r.errors == count_errors(outcomes@),
            match r.first_error {
                Some(m) => first_error(outcomes@) == Some(m@),
                None => first_error(outcomes@) is None,
            },
            r.fitted == batch_installs(primaries(old(self).rows()), outcomes@).len(),
            final(self).rows().len() == old(self).rows().len() + r.fitted,
            final(self).rows().take(old(self).rows().len() as int) == old(self).rows(),
            forall|j: int|
                0 <= j < r.fitted ==> {
                    let e = #[trigger] final(self).rows()[old(self).rows().len() + j];
                    let b = batch_installs(primaries(old(self).rows()), outcomes@)[j];
                    &&& e.science_spec().primary() == b.0
                    &&& e.science_spec().device_spec() == b.1
                    &&& e.revision_val() == 0
                    &&& !e.checked_val()
                },
            final(self).outputs() == old(self).outputs(),
            final(self).dibls() == old(self).dibls(),
            final(self).model_index() == old(self).model_index(),
            final(issues).rows_view() == old(issues).rows_view() + recorded_rows(
                batch_issues(outcomes@),
                old(issues).next_number(),
            ),
    {
        let ghost all = outcomes@;
        let ghost rows0 = self.rows();
        let ghost n0 = issues.next_number();
        let ghost v0 = issues.rows_view();
        let mut tally = FilesFittedTally {
            fitted: 0,
            already_loaded: 0,
            unfittable: 0,
            errors: 0,
            first_error: None,
        };
        let count = outcomes.len();
        let mut rest = outcomes;
        let ghost mut k: int = 0;
        proof {
            assert(all.take(0) =~= Seq::<(PrimaryTransferSource, FittedOutcome<D>)>::empty());
            assert(v0 =~= v0 + recorded_rows(batch_issues(all.take(0)), n0));
            assert(rows0.take(rows0.len() as int) =~= rows0);
        }
        while rest.len() > 0
            invariant
                0 <= k <= all.len(),
                all.len() == count,
                rest@ =~= all.skip(k),
                self.wf(),
                issues.wf(),
                installable(all),
                old(self).next_id() + all.len() < u64::MAX,
                n0 + all.len() < u64::MAX,
                rows0 == old(self).rows(),
                self.next_id() <= old(self).next_id() + k,
                tally.fitted + tally.already_loaded == count_fitted(all.take(k)),
                tally.unfittable == count_unfittable(all.take(k)),
                tally.errors == count_errors(all.take(k)),
                match tally.first_error {
                    Some(m) => first_error(all.take(k)) == Some(m@),
                    None => first_error(all.take(k)) is None,
                },
                self.rows().len() == rows0.len() + tally.fitted,
                self.rows().take(rows0.len() as int) == rows0,
                tally.fitted == batch_installs(primaries(rows0), all.take(k)).len(),
                primaries(self.rows()) == primaries(rows0) + batch_installs(primaries(rows0), all.take(k)).map_values(
                    |x: (ProvenanceView, D)| x.0,
                ),
                forall|j: int|
                    0 <= j < tally.fitted ==> {
                        let e = #[trigger] self.rows()[rows0.len() + j];
                        let b = batch_installs(primaries(rows0), all.take(k))[j];
                        &&& e.science_spec().primary() == b.0
                        &&& e.science_spec().device_spec() == b.1
                        &&& e.revision_val() == 0
                        &&& !e.checked_val()
                    },
                self.outputs() == old(self).outputs(),
                self.dibls() == old(self).dibls(),
                self.model_index() == old(self).model_index(),
                issues.next_number() == n0 + batch_issues(all.take(k)).len(),
                issues.rows_view() == v0 + recorded_rows(batch_issues(all.take(k)), n0),
            decreases rest@.len(),
        {
            let (source, outcome) = rest.remove(0);
            let ghost t = all.take(k + 1);
            proof {
                assert(all[k] == (source, outcome));
                assert(t.drop_last() =~= all.take(k));
                assert(t.last() == all[k]);
                lemma_counts_bounded(all.take(k));
            }
            match outcome {
                FittedOutcome::Fitted(device, facts) => {
                    proof {
                        assert(science_error(
                            facts.name@,
                            facts.has_output_curves,
                            facts.has_second_transfer,
                            source@,
                            false,
                            false,
                        ) is None);
                    }
                    let ghost before = self.rows();
                    let ghost pv = source@;
                    let ghost dv = device;
                    let ghost b = batch_installs(primaries(rows0), all.take(k));
                    proof {
                        let ps = primaries(before);
                        assert(named_in(ps, pv) <==> exists|i: int|
                            0 <= i < before.len() && same_named(
                                (#[trigger] before[i]).science_spec().primary(),
                                pv,
                            )) by {
                            if named_in(ps, pv) {
                                let i = choose|i: int| 0 <= i < ps.len() && same_named(#[trigger] ps[i], pv);
                                assert(ps[i] == before[i].science_spec().primary());
                            }
                            if exists|i: int|
                                0 <= i < before.len() && same_named(
                                    (#[trigger] before[i]).science_spec().primary(),
                                    pv,
                                ) {
                                let i = choose|i: int|
                                    0 <= i < before.len() && same_named(
                                        (#[trigger] before[i]).science_spec().primary(),
                                        pv,
                                    );
                                assert(ps[i] == before[i].science_spec().primary());
                            }
                        }
                        assert(t.last().1 == FittedOutcome::Fitted(dv, facts));
                    }
                    let installed = self.install_fitted_device(device, facts, source, None);
                    match installed {
                        Ok(DeviceInstallOutcome::Installed) => {
                            tally.fitted = tally.fitted + 1;
                            proof {
                                assert(self.rows().take(rows0.len() as int) =~= before.take(rows0.len() as int));
                                assert(batch_installs(primaries(rows0), t) == b.push((pv, dv)));
                                assert(self.rows() =~= before.push(self.rows().last()));
                                assert(primaries(self.rows()) =~= primaries(before).push(pv));
                                assert(b.push((pv, dv)).map_values(|x: (ProvenanceView, D)| x.0) =~= b.map_values(
                                    |x: (ProvenanceView, D)| x.0,
                                ).push(pv));
                                assert forall|j: int| 0 <= j < tally.fitted implies {
                                    let e = #[trigger] self.rows()[rows0.len() + j];
                                    let bb = batch_installs(primaries(rows0), t)[j];
                                    &&& e.science_spec().primary() == bb.0
                                    &&& e.science_spec().device_spec() == bb.1
                                    &&& e.revision_val() == 0
                                    &&& !e.checked_val()
                                } by {
                                    if j < tally.fitted - 1 {
                                        assert(self.rows()[rows0.len() + j] == before[rows0.len() + j]);
                                    }
                                }
                            }
                        },
                        _ => {
                            tally.already_loaded = tally.already_loaded + 1;
                            proof {
                                assert(batch_installs(primaries(rows0), t) == b);
                            }
                        },
                    }
                    proof {
                        assert(batch_issues(t) =~= batch_issues(all.take(k)));
                    }
                },
                FittedOutcome::Unfittable => {
                    tally.unfittable = tally.unfittable + 1;
                    proof {
                        assert(batch_installs(primaries(rows0), t) == batch_installs(primaries(rows0), all.take(k)));
                    }
                    let name = owned(source.name());
                    let ghost items = batch_issues(all.take(k));
                    issues.record(name, owned(UNFITTABLE_TRANSFER_MESSAGE));
                    proof {
                        let x = (source@.name, UNFITTABLE_TRANSFER_MESSAGE@);
                        assert(batch_issues(t) =~= items.push(x));
                        assert(items.push(x).drop_last() =~= items);
                        assert(issues.rows_view() =~= v0 + recorded_rows(batch_issues(t), n0));
                    }
                },
                FittedOutcome::ParseError(message) => {
                    tally.errors = tally.errors + 1;
                    proof {
                        assert(batch_installs(primaries(rows0), t) == batch_installs(primaries(rows0), all.take(k)));
                    }
                    if tally.first_error.is_none() {
                        tally.first_error = Some(message.clone());
                    }
                    let name = owned(source.name());
                    let ghost items = batch_issues(all.take(k));
                    let ghost m = message@;
                    issues.record(name, message);
                    proof {
                        let x = (source@.name, m);
                        assert(batch_issues(t) =~= items.push(x));
                        assert(items.push(x).drop_last() =~= items);
                        assert(issues.rows_view() =~= v0 + recorded_rows(batch_issues(t), n0));
                    }
                },
            }
            proof {
                k = k + 1;
            }
        }
        proof {
            assert(all.take(k) =~= all);
        }
        tally
    }
}

/// The toast text of a loaded batch: the counts, and when nothing loaded,
/// the first parser message so the user learns why.
pub open spec fn files_summary_text(
    fitted: nat,
    already_loaded: nat,
    unfittable: nat,
    errors: nat,
    first_error: Option<Seq<char>>,
) -> Seq<char> {
    "Loaded "@ + decimal(fitted) + " device(s)"@ + count_clause(already_loaded, " already loaded"@)
        + count_clause(unfittable, " without a fit"@) + count_clause(errors, " failed"@) + "."@
        + match first_error {
        Some(m) => if fitted == 0 {
            " "@ + m
        } else {
            Seq::empty()
        },
        None => Seq::empty(),
    }
}

/// The toast for a loaded batch: a success when a device was added, else a
/// warning.
pub fn files_fitted_toast(tally: &FilesFittedTally) -> (r: (ToastLevel, String))
    ensures
        r.0 == if tally.fitted > 0 {
            ToastLevel::Success
        } else {
            ToastLevel::Warning
        },
        r.1@ == files_summary_text(
            tally.fitted as nat,
            tally.already_loaded as nat,
            tally.unfittable as nat,
            tally.errors as nat,
            match tally.first_error {
                Some(m) => Some(m@),
                None => None,
            },
        ),
{
    let mut text = owned("Loaded ");
    push_decimal(&mut text, tally.fitted as u64);
    push_str(&mut text, " device(s)");
    push_count_clause(&mut text, tally.already_loaded, " already loaded");
    push_count_clause(&mut text, tally.unfittable, " without a fit");
    push_count_clause(&mut text, tally.errors, " failed");
    push_str(&mut text, ".");
    let ghost base = text@;
    match &tally.first_error {
        Some(m) => {
            if tally.fitted == 0 {
                push_str(&mut text, " ");
                push_str(&mut text, m.as_str());
            } else {
                assert(base + Seq::<char>::empty() =~= base);
            }
        },
        None => {
            assert(base + Seq::<char>::empty() =~= base);
        },
    }
    let level = if tally.fitted > 0 {
        ToastLevel::Success
    } else {
        ToastLevel::Warning
    };
    (level, text)
}

} // verus!
