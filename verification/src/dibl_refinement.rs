//! DIBL measurements of the Model Fit page: which device each second transfer
//! goes to, the decisions the worker takes around the science library's DIBL
//! fit, and the commit that applies a finished result only to rows whose
//! identity and scientific revision are still those the plan captured.
//!
//! The fitted values that come back (`A`, such as the DIBL coefficient and the
//! drain bias of the second transfer) are carried through unread.

use vstd::prelude::*;
use crate::modelfit::{
    token_live, live_index, DeviceEntry, DeviceId, DeviceScience, DeviceToken, ModelFitState,
    PendingDibl, PendingDiblReason,
};
use crate::pairing::{dibl_key, dibl_pair_key};
use crate::pending::{
    add_to_group, count_first_le, count_named, count_named_by, kept_or_named_again, law_kept_pending_rows_survive, lemma_prefix_append,
    lemma_prefix_trans, lemma_take_concat_prefix, pending_after, stable_sort_by_first,
    upserted_all, PendingEffect,
};
use crate::output_refinement::parsed_view;
use crate::source::{
    opt_view, same_named, visible_name, visible_source_name, DiblSource, Provenance, ProvenanceView,
};
use crate::text::{is_blank, owned, str_eq};

verus! {

/// Issue text for a file whose device changed before the result came back.
pub const DIBL_STALE_MESSAGE: &'static str =
    "The device changed before this DIBL measurement was applied; it is kept pending.";

/// Issue text for a detach of a device without a second transfer.
pub const NO_SECOND_TRANSFER_MESSAGE: &'static str = "No DIBL measurement is attached.";

/// Issue text for a detach after which the Level 62 fit cannot be rebuilt.
pub const LEVEL62_RESTORE_MESSAGE: &'static str =
    "Could not rebuild Level 62 without the attached DIBL measurement.";

/// One imported second transfer: its provenance and the measurement.
pub struct DiblImport<T> {
    pub source: DiblSource,
    pub second: T,
}

#[derive(Clone, Copy, Debug, PartialEq, Eq, Structural)]
pub enum DiblIssueKind {
    Parse,
    NoFit,
    Stale,
    Commit,
}

#[derive(Clone, Copy, Debug, PartialEq, Eq, Structural)]
pub enum DiblRefinementPurpose {
    Import,
    AttachPending,
    Detach,
    Remove,
}

/// One file chosen for one device, or a batch paired by file name.
#[derive(Clone, Copy, Debug, PartialEq, Eq, Structural)]
pub enum DiblRefinementMode {
    Single,
    Batch,
}

/// A message about one file or device, for the issue list.
pub struct DiblIssue {
    pub name: String,
    pub message: String,
    pub kind: DiblIssueKind,
}

impl View for DiblIssue {
    type V = (Seq<char>, Seq<char>, DiblIssueKind);

    open spec fn view(&self) -> (Seq<char>, Seq<char>, DiblIssueKind) {
        (self.name@, self.message@, self.kind)
    }
}

pub open spec fn issue_views(s: Seq<DiblIssue>) -> Seq<(Seq<char>, Seq<char>, DiblIssueKind)> {
    s.map_values(|i: DiblIssue| i@)
}

/// An imported file that waits as pending, with its place in the dialog.
pub struct DeferredDibl<T> {
    pub ordinal: usize,
    pub import: DiblImport<T>,
    pub reason: PendingDiblReason,
}

/// What planning decided without a device: counts, deferred files, issues.
pub struct DiblImportSummary<T> {
    pub unmatched: usize,
    pub ambiguous: usize,
    pub stale: usize,
    pub pending: Vec<DeferredDibl<T>>,
    pub issues: Vec<DiblIssue>,
}

/// A displaced attachment, with the generation of the import that displaced
/// it when that import belongs to the same job.
pub struct RankedPendingDibl<T> {
    pub generation: Option<usize>,
    pub pending: PendingDibl<T>,
}

/// What the worker made of one operation.
pub enum DiblOperationResult<T, A> {
    /// The library fitted DIBL with the second transfer: `at` is the fitted
    /// value and `second_vds` the drain bias of the second transfer.
    Fitted {
        ordinal: usize,
        import: DiblImport<T>,
        at: A,
        second_vds: A,
        displaced: Option<RankedPendingDibl<T>>,
    },
    /// The library could not fit DIBL; `message` says why.
    NoFit { ordinal: usize, import: DiblImport<T>, message: String },
}

/// The worker's result for one device.
pub struct DiblJobResult<D, T, A> {
    pub token: DeviceToken,
    pub device_name: String,
    pub science: DeviceScience<D>,
    pub operations: Vec<DiblOperationResult<T, A>>,
    pub clear_pending: Option<PendingDibl<T>>,
    pub changed: bool,
    pub clear_error: Option<String>,
}

pub struct DiblRefinementResult<D, T, A> {
    pub purpose: DiblRefinementPurpose,
    pub mode: DiblRefinementMode,
    pub jobs: Vec<DiblJobResult<D, T, A>>,
    pub summary: DiblImportSummary<T>,
}

/// One committed DIBL fit, for the user.
pub struct DiblFit<A> {
    pub name: String,
    pub second_vds: A,
    pub at: A,
}

impl<A> View for DiblFit<A> {
    type V = (Seq<char>, A, A);

    open spec fn view(&self) -> (Seq<char>, A, A) {
        (self.name@, self.second_vds, self.at)
    }
}

pub open spec fn fit_views<A>(s: Seq<DiblFit<A>>) -> Seq<(Seq<char>, A, A)> {
    s.map_values(|f: DiblFit<A>| f@)
}

/// What one commit did, for the user.
pub struct DiblCommitReport<A> {
    pub purpose: DiblRefinementPurpose,
    pub mode: DiblRefinementMode,
    pub fitted: Vec<DiblFit<A>>,
    pub displaced: usize,
    pub unmatched: usize,
    pub ambiguous: usize,
    pub stale: usize,
    pub commit_errors: usize,
    pub issues: Vec<DiblIssue>,
    pub action_succeeded: bool,
}

pub type DiblEffect<T> = PendingEffect<DiblSource, PendingDibl<T>>;

// ---------------------------------------------------------------------------
// What a commit does
// ---------------------------------------------------------------------------

pub open spec fn import_pending<T>(import: DiblImport<T>, reason: PendingDiblReason) -> PendingDibl<T> {
    PendingDibl { source: import.source, second: import.second, reason }
}

pub open spec fn op_ordinal<T, A>(op: DiblOperationResult<T, A>) -> usize {
    match op {
        DiblOperationResult::Fitted { ordinal, .. } => ordinal,
        DiblOperationResult::NoFit { ordinal, .. } => ordinal,
    }
}

pub open spec fn op_import<T, A>(op: DiblOperationResult<T, A>) -> DiblImport<T> {
    match op {
        DiblOperationResult::Fitted { import, .. } => import,
        DiblOperationResult::NoFit { import, .. } => import,
    }
}

/// A stale job's files stay pending as "device changed".
pub open spec fn stale_effect<T, A>(op: DiblOperationResult<T, A>) -> DiblEffect<T> {
    PendingEffect::FreshPending {
        ordinal: op_ordinal(op),
        pending: import_pending(op_import(op), PendingDiblReason::DeviceChanged),
    }
}

/// A displaced attachment returns in its displacer's generation, or, when it
/// was attached before the command, by the displacer's ordinal.
pub open spec fn displaced_effect<T>(ordinal: usize, d: RankedPendingDibl<T>) -> DiblEffect<T> {
    match d.generation {
        Some(g) => PendingEffect::FreshPending { ordinal: g, pending: d.pending },
        None => PendingEffect::PreCommandDisplacement { ordinal, pending: d.pending },
    }
}

pub open spec fn op_effects<T, A>(op: DiblOperationResult<T, A>) -> Seq<DiblEffect<T>> {
    match op {
        DiblOperationResult::Fitted { ordinal, import, displaced, .. } => seq![
            PendingEffect::FreshClear { ordinal, source: import.source },
        ] + match displaced {
            Some(d) => seq![displaced_effect(ordinal, d)],
            None => Seq::empty(),
        },
        DiblOperationResult::NoFit { ordinal, import, .. } => seq![
            PendingEffect::FreshPending {
                ordinal,
                pending: import_pending(import, PendingDiblReason::NoFit),
            },
        ],
    }
}

pub open spec fn ops_effects<T, A>(ops: Seq<DiblOperationResult<T, A>>) -> Seq<DiblEffect<T>>
    decreases ops.len(),
{
    if ops.len() == 0 {
        Seq::empty()
    } else {
        ops_effects(ops.drop_last()) + op_effects(ops.last())
    }
}

pub open spec fn detach_effects<T>(p: Option<PendingDibl<T>>) -> Seq<DiblEffect<T>> {
    match p {
        Some(p) => seq![PendingEffect::CurrentDetach(p)],
        None => Seq::empty(),
    }
}

/// The job finds its row unchanged and carries no clear error.
pub open spec fn job_applies<D, T, A>(rows: Seq<DeviceEntry<D>>, job: DiblJobResult<D, T, A>) -> bool {
    token_live(rows, job.token) && job.clear_error is None
}

pub open spec fn job_effects<D, T, A>(rows: Seq<DeviceEntry<D>>, job: DiblJobResult<D, T, A>) -> Seq<
    DiblEffect<T>,
> {
    if !token_live(rows, job.token) {
        job.operations@.map_values(|op: DiblOperationResult<T, A>| stale_effect(op))
    } else if job.clear_error is Some {
        Seq::empty()
    } else {
        ops_effects(job.operations@) + detach_effects(job.clear_pending)
    }
}

pub open spec fn stale_issue<T, A>(op: DiblOperationResult<T, A>) -> (Seq<char>, Seq<char>, DiblIssueKind) {
    (op_import(op).source@.name, DIBL_STALE_MESSAGE@, DiblIssueKind::Stale)
}

pub open spec fn no_fit_issues<T, A>(ops: Seq<DiblOperationResult<T, A>>) -> Seq<
    (Seq<char>, Seq<char>, DiblIssueKind),
>
    decreases ops.len(),
{
    if ops.len() == 0 {
        Seq::empty()
    } else {
        no_fit_issues(ops.drop_last()) + match ops.last() {
            DiblOperationResult::NoFit { import, message, .. } => seq![
                (import.source@.name, message@, DiblIssueKind::NoFit),
            ],
            _ => Seq::empty(),
        }
    }
}

pub open spec fn job_issues<D, T, A>(rows: Seq<DeviceEntry<D>>, job: DiblJobResult<D, T, A>) -> Seq<
    (Seq<char>, Seq<char>, DiblIssueKind),
> {
    if !token_live(rows, job.token) {
        if job.operations@.len() == 0 {
            seq![(job.device_name@, DIBL_STALE_MESSAGE@, DiblIssueKind::Stale)]
        } else {
            job.operations@.map_values(|op: DiblOperationResult<T, A>| stale_issue(op))
        }
    } else {
        match job.clear_error {
            Some(m) => seq![(job.device_name@, m@, DiblIssueKind::Commit)],
            None => no_fit_issues(job.operations@),
        }
    }
}

/// The fits that the operations report, in order.
pub open spec fn fits_of<T, A>(ops: Seq<DiblOperationResult<T, A>>) -> Seq<(Seq<char>, A, A)>
    decreases ops.len(),
{
    if ops.len() == 0 {
        Seq::empty()
    } else {
        fits_of(ops.drop_last()) + match ops.last() {
            DiblOperationResult::Fitted { import, at, second_vds, .. } => seq![
                (import.source@.name, second_vds, at),
            ],
            _ => Seq::empty(),
        }
    }
}

pub open spec fn displaced_count<T, A>(ops: Seq<DiblOperationResult<T, A>>) -> nat
    decreases ops.len(),
{
    if ops.len() == 0 {
        0
    } else {
        displaced_count(ops.drop_last()) + if ops.last() matches DiblOperationResult::Fitted {
            displaced: Some(_),
            ..
        } {
            1nat
        } else {
            0nat
        }
    }
}

/// How many stale files a job reports: each of its files, or the device
/// itself when it has none.
pub open spec fn job_stale<D, T, A>(rows: Seq<DeviceEntry<D>>, job: DiblJobResult<D, T, A>) -> nat {
    if token_live(rows, job.token) {
        0
    } else if job.operations@.len() == 0 {
        1
    } else {
        job.operations@.len()
    }
}

/// The rows once `job` is committed: a changed, applicable job replaces the
/// science of its row and advances that row's revision.
pub open spec fn rows_after_job<D, T, A>(rows: Seq<DeviceEntry<D>>, job: DiblJobResult<D, T, A>) -> Seq<
    DeviceEntry<D>,
> {
    if job_applies(rows, job) && job.changed {
        let i = live_index(rows, job.token);
        rows.update(i, rows[i].with_science(job.science))
    } else {
        rows
    }
}

pub open spec fn rows_after_jobs<D, T, A>(
    rows: Seq<DeviceEntry<D>>,
    jobs: Seq<DiblJobResult<D, T, A>>,
) -> Seq<DeviceEntry<D>>
    decreases jobs.len(),
{
    if jobs.len() == 0 {
        rows
    } else {
        rows_after_job(rows_after_jobs(rows, jobs.drop_last()), jobs.last())
    }
}

pub open spec fn jobs_effects<D, T, A>(rows: Seq<DeviceEntry<D>>, jobs: Seq<DiblJobResult<D, T, A>>) -> Seq<
    DiblEffect<T>,
>
    decreases jobs.len(),
{
    if jobs.len() == 0 {
        Seq::empty()
    } else {
        jobs_effects(rows, jobs.drop_last()) + job_effects(
            rows_after_jobs(rows, jobs.drop_last()),
            jobs.last(),
        )
    }
}

pub open spec fn jobs_issues<D, T, A>(rows: Seq<DeviceEntry<D>>, jobs: Seq<DiblJobResult<D, T, A>>) -> Seq<
    (Seq<char>, Seq<char>, DiblIssueKind),
>
    decreases jobs.len(),
{
    if jobs.len() == 0 {
        Seq::empty()
    } else {
        jobs_issues(rows, jobs.drop_last()) + job_issues(
            rows_after_jobs(rows, jobs.drop_last()),
            jobs.last(),
        )
    }
}

pub open spec fn jobs_fits<D, T, A>(rows: Seq<DeviceEntry<D>>, jobs: Seq<DiblJobResult<D, T, A>>) -> Seq<
    (Seq<char>, A, A),
>
    decreases jobs.len(),
{
    if jobs.len() == 0 {
        Seq::empty()
    } else {
        jobs_fits(rows, jobs.drop_last()) + if job_applies(
            rows_after_jobs(rows, jobs.drop_last()),
            jobs.last(),
        ) {
            fits_of(jobs.last().operations@)
        } else {
            Seq::empty()
        }
    }
}

pub open spec fn jobs_displaced<D, T, A>(rows: Seq<DeviceEntry<D>>, jobs: Seq<DiblJobResult<D, T, A>>) -> nat
    decreases jobs.len(),
{
    if jobs.len() == 0 {
        0
    } else {
        jobs_displaced(rows, jobs.drop_last()) + if job_applies(
            rows_after_jobs(rows, jobs.drop_last()),
            jobs.last(),
        ) {
            displaced_count(jobs.last().operations@)
        } else {
            0
        }
    }
}

pub open spec fn jobs_stale<D, T, A>(rows: Seq<DeviceEntry<D>>, jobs: Seq<DiblJobResult<D, T, A>>) -> nat
    decreases jobs.len(),
{
    if jobs.len() == 0 {
        0
    } else {
        jobs_stale(rows, jobs.drop_last()) + job_stale(rows_after_jobs(rows, jobs.drop_last()), jobs.last())
    }
}

/// Number of live jobs that carry a clear error.
pub open spec fn jobs_commit_errors<D, T, A>(
    rows: Seq<DeviceEntry<D>>,
    jobs: Seq<DiblJobResult<D, T, A>>,
) -> nat
    decreases jobs.len(),
{
    if jobs.len() == 0 {
        0
    } else {
        let prev = rows_after_jobs(rows, jobs.drop_last());
        jobs_commit_errors(rows, jobs.drop_last()) + if token_live(prev, jobs.last().token)
            && jobs.last().clear_error is Some {
            1nat
        } else {
            0nat
        }
    }
}

/// Some applicable job changed its device.
pub open spec fn jobs_succeeded<D, T, A>(rows: Seq<DeviceEntry<D>>, jobs: Seq<DiblJobResult<D, T, A>>) -> bool
    decreases jobs.len(),
{
    if jobs.len() == 0 {
        false
    } else {
        jobs_succeeded(rows, jobs.drop_last()) || (job_applies(
            rows_after_jobs(rows, jobs.drop_last()),
            jobs.last(),
        ) && jobs.last().changed)
    }
}

pub open spec fn deferred_effect<T>(d: DeferredDibl<T>) -> DiblEffect<T> {
    PendingEffect::FreshPending { ordinal: d.ordinal, pending: import_pending(d.import, d.reason) }
}

pub open spec fn total_operations<D, T, A>(jobs: Seq<DiblJobResult<D, T, A>>) -> nat
    decreases jobs.len(),
{
    if jobs.len() == 0 {
        0
    } else {
        total_operations(jobs.drop_last()) + jobs.last().operations@.len()
    }
}

// ---------------------------------------------------------------------------
// Proof helpers
// ---------------------------------------------------------------------------

proof fn lemma_issue_views_push(s: Seq<DiblIssue>, x: DiblIssue)
    ensures
        issue_views(s.push(x)) == issue_views(s).push(x@),
{
    assert(issue_views(s.push(x)) =~= issue_views(s).push(x@));
}

proof fn lemma_fit_views_push<A>(s: Seq<DiblFit<A>>, x: DiblFit<A>)
    ensures
        fit_views(s.push(x)) == fit_views(s).push(x@),
{
    assert(fit_views(s.push(x)) =~= fit_views(s).push(x@));
}

proof fn lemma_displaced_bounded<T, A>(ops: Seq<DiblOperationResult<T, A>>)
    ensures
        displaced_count(ops) <= ops.len(),
    decreases ops.len(),
{
    if ops.len() > 0 {
        lemma_displaced_bounded(ops.drop_last());
    }
}

/// The counters of the first jobs stay within the jobs and their operations.
proof fn lemma_jobs_counters_bounded<D, T, A>(rows: Seq<DeviceEntry<D>>, jobs: Seq<DiblJobResult<D, T, A>>)
    ensures
        jobs_displaced(rows, jobs) <= total_operations(jobs),
        jobs_stale(rows, jobs) <= jobs.len() + total_operations(jobs),
        jobs_commit_errors(rows, jobs) <= jobs.len(),
    decreases jobs.len(),
{
    if jobs.len() > 0 {
        lemma_jobs_counters_bounded(rows, jobs.drop_last());
        lemma_displaced_bounded(jobs.last().operations@);
    }
}

proof fn lemma_total_prefix<D, T, A>(jobs: Seq<DiblJobResult<D, T, A>>, k: int)
    requires
        0 <= k <= jobs.len(),
    ensures
        total_operations(jobs.take(k)) <= total_operations(jobs),
    decreases jobs.len() - k,
{
    if k < jobs.len() {
        lemma_total_prefix(jobs, k + 1);
        assert(jobs.take(k + 1).drop_last() =~= jobs.take(k));
    } else {
        assert(jobs.take(k) =~= jobs);
    }
}

/// Committing jobs keeps every row's identity and place, and advances each
/// revision by at most one per job.
proof fn lemma_rows_after_jobs<D, T, A>(rows: Seq<DeviceEntry<D>>, jobs: Seq<DiblJobResult<D, T, A>>)
    requires
        forall|i: int| 0 <= i < rows.len() ==> #[trigger] rows[i].revision_val() + jobs.len() <= u64::MAX,
    ensures
        rows_after_jobs(rows, jobs).len() == rows.len(),
        forall|i: int|
            0 <= i < rows.len() ==> (#[trigger] rows_after_jobs(rows, jobs)[i]).id_val()
                == rows[i].id_val() && rows_after_jobs(rows, jobs)[i].revision_val()
                <= rows[i].revision_val() + jobs.len(),
    decreases jobs.len(),
{
    if jobs.len() > 0 {
        let prev = rows_after_jobs(rows, jobs.drop_last());
        lemma_rows_after_jobs(rows, jobs.drop_last());
        let job = jobs.last();
        if job_applies(prev, job) && job.changed {
            let i = live_index(prev, job.token);
            assert(0 <= i < prev.len());
            prev[i].lemma_with_science(job.science);
        }
    }
}

// ---------------------------------------------------------------------------
// The commit
// ---------------------------------------------------------------------------

fn issue(name: String, message: &str, kind: DiblIssueKind) -> (r: DiblIssue)
    ensures
        r@ == (name@, message@, kind),
{
    DiblIssue { name, message: owned(message), kind }
}

/// Moves the deferred files of the summary into fresh pending effects.
fn deferred_into_effects<T>(pending: Vec<DeferredDibl<T>>) -> (r: Vec<DiblEffect<T>>)
    ensures
        r@ == pending@.map_values(|d: DeferredDibl<T>| deferred_effect(d)),
{
    let ghost all = pending@;
    let mut rest = pending;
    let mut out: Vec<DiblEffect<T>> = Vec::new();
    let ghost mut k: int = 0;
    while rest.len() > 0
        invariant
            0 <= k <= all.len(),
            rest@ =~= all.skip(k),
            out@ =~= all.take(k).map_values(|d: DeferredDibl<T>| deferred_effect(d)),
        decreases rest@.len(),
    {
        let d = rest.remove(0);
        proof {
            assert(d == all[k]);
            assert(all.take(k + 1) =~= all.take(k).push(all[k]));
        }
        let DeferredDibl { ordinal, import, reason } = d;
        let DiblImport { source, second } = import;
        out.push(PendingEffect::FreshPending { ordinal, pending: PendingDibl { source, second, reason } });
        proof {
            k = k + 1;
        }
    }
    proof {
        assert(all.take(k) =~= all);
    }
    out
}

impl<D, C, T> ModelFitState<D, C, T> {
    /// Commits one job's result: a stale job keeps its files pending as
    /// "device changed"; a clear error is reported; otherwise a changed job
    /// commits its science and each operation leaves its pending effects.
    fn commit_dibl_job<A>(
        &mut self,
        job: DiblJobResult<D, T, A>,
        effects: &mut Vec<DiblEffect<T>>,
        report: &mut DiblCommitReport<A>,
    )
        requires
            old(self).wf(),
            job.science.wf(),
            forall|i: int|
                0 <= i < old(self).rows().len() ==> #[trigger] old(self).rows()[i].revision_val()
                    < u64::MAX,
            old(report).displaced + job.operations@.len() <= usize::MAX,
            old(report).stale + 1 + job.operations@.len() <= usize::MAX,
            old(report).commit_errors + 1 <= usize::MAX,
        ensures
            final(self).wf(),
            final(self).rows() == rows_after_job(old(self).rows(), job),
            final(self).outputs() == old(self).outputs(),
            final(self).dibls() == old(self).dibls(),
            final(self).selection() == old(self).selection(),
            final(self).model_index() == old(self).model_index(),
            final(self).next_id() == old(self).next_id(),
            final(effects)@ == old(effects)@ + job_effects(old(self).rows(), job),
            issue_views(final(report).issues@) == issue_views(old(report).issues@) + job_issues(
                old(self).rows(),
                job,
            ),
            fit_views(final(report).fitted@) == fit_views(old(report).fitted@) + if job_applies(
                old(self).rows(),
                job,
            ) {
                fits_of(job.operations@)
            } else {
                Seq::empty()
            },
            final(report).displaced == old(report).displaced + if job_applies(
                old(self).rows(),
                job,
            ) {
                displaced_count(job.operations@)
            } else {
                0
            },
            final(report).stale == old(report).stale + job_stale(old(self).rows(), job),
            final(report).commit_errors == old(report).commit_errors + if token_live(
                old(self).rows(),
                job.token,
            ) && job.clear_error is Some {
                1int
            } else {
                0int
            },
            final(report).action_succeeded == (old(report).action_succeeded || (job_applies(
                old(self).rows(),
                job,
            ) && job.changed)),
            final(report).purpose == old(report).purpose,
            final(report).mode == old(report).mode,
            final(report).unmatched == old(report).unmatched,
            final(report).ambiguous == old(report).ambiguous,
    {
        let ghost rows = self.rows();
        let ghost ops = job.operations@;
        let ghost old_job = job;
        let current = self.current_index(job.token);
        proof {
            self.lemma_wf_rows();
        }
        let DiblJobResult {
            token: _,
            device_name,
            science,
            operations,
            clear_pending,
            changed,
            clear_error,
        } = job;
        let idx = match current {
            None => {
                // The row is gone or was edited since the plan: keep the files.
                if operations.len() == 0 {
                    report.stale = report.stale + 1;
                    report.issues.push(issue(device_name, DIBL_STALE_MESSAGE, DiblIssueKind::Stale));
                    proof {
                        assert(issue_views(report.issues@) =~= issue_views(old(report).issues@)
                            + job_issues(rows, old_job));
                        assert(fit_views(report.fitted@) =~= fit_views(old(report).fitted@) + Seq::empty());
                    }
                    return ;
                }
                let mut rest = operations;
                let ghost mut m: int = 0;
                let ghost e0 = effects@;
                let ghost i0 = report.issues@;
                proof {
                    assert(e0 =~= e0 + ops.take(0).map_values(
                        |op: DiblOperationResult<T, A>| stale_effect(op),
                    ));
                    assert(issue_views(i0) =~= issue_views(i0) + ops.take(0).map_values(
                        |op: DiblOperationResult<T, A>| stale_issue(op),
                    ));
                }
                while rest.len() > 0
                    invariant
                        0 <= m <= ops.len(),
                        rest@ =~= ops.skip(m),
                        effects@ =~= e0 + ops.take(m).map_values(
                            |op: DiblOperationResult<T, A>| stale_effect(op),
                        ),
                        issue_views(report.issues@) =~= issue_views(i0) + ops.take(m).map_values(
                            |op: DiblOperationResult<T, A>| stale_issue(op),
                        ),
                        report.stale == old(report).stale + m,
                        old(report).stale + 1 + ops.len() <= usize::MAX,
                        report.fitted == old(report).fitted,
                        report.displaced == old(report).displaced,
                        report.commit_errors == old(report).commit_errors,
                        report.action_succeeded == old(report).action_succeeded,
                        report.purpose == old(report).purpose,
                        report.mode == old(report).mode,
                        report.unmatched == old(report).unmatched,
                        report.ambiguous == old(report).ambiguous,
                    decreases rest@.len(),
                {
                    let op = rest.remove(0);
                    proof {
                        assert(op == ops[m]);
                        assert(ops.take(m + 1) =~= ops.take(m).push(ops[m]));
                    }
                    let (ordinal, import) = match op {
                        DiblOperationResult::Fitted { ordinal, import, .. } => (ordinal, import),
                        DiblOperationResult::NoFit { ordinal, import, .. } => (ordinal, import),
                    };
                    report.stale = report.stale + 1;
                    let name = owned(import.source.name());
                    let ghost before = report.issues@;
                    let new_issue = issue(name, DIBL_STALE_MESSAGE, DiblIssueKind::Stale);
                    report.issues.push(new_issue);
                    proof {
                        lemma_issue_views_push(before, new_issue);
                        assert(new_issue@ == stale_issue(ops[m]));
                    }
                    let DiblImport { source, second } = import;
                    effects.push(
                        PendingEffect::FreshPending {
                            ordinal,
                            pending: PendingDibl {
                                source,
                                second,
                                reason: PendingDiblReason::DeviceChanged,
                            },
                        },
                    );
                    proof {
                        assert(issue_views(report.issues@) =~= issue_views(i0) + ops.take(
                            m + 1,
                        ).map_values(|op: DiblOperationResult<T, A>| stale_issue(op)));
                        m = m + 1;
                    }
                }
                proof {
                    assert(ops.take(m) =~= ops);
                    assert(fit_views(report.fitted@) =~= fit_views(old(report).fitted@) + Seq::empty());
                }
                return ;
            },
            Some(i) => i,
        };
        match clear_error {
            Some(message) => {
                report.commit_errors = report.commit_errors + 1;
                report.issues.push(DiblIssue { name: device_name, message, kind: DiblIssueKind::Commit });
                proof {
                    assert(issue_views(report.issues@) =~= issue_views(old(report).issues@)
                        + job_issues(rows, old_job));
                    assert(effects@ =~= old(effects)@ + job_effects(rows, old_job));
                    assert(fit_views(report.fitted@) =~= fit_views(old(report).fitted@) + Seq::empty());
                }
                return ;
            },
            None => {},
        }
        if changed {
            self.commit_science_at(idx, science);
            report.action_succeeded = true;
        }
        let mut rest = operations;
        let ghost mut m: int = 0;
        let ghost e0 = effects@;
        let ghost i0 = report.issues@;
        let ghost f0 = report.fitted@;
        let ghost d0 = report.displaced;
        proof {
            assert(ops.take(0) =~= Seq::<DiblOperationResult<T, A>>::empty());
            assert(e0 =~= e0 + ops_effects(ops.take(0)));
            assert(issue_views(i0) =~= issue_views(i0) + no_fit_issues(ops.take(0)));
            assert(fit_views(f0) =~= fit_views(f0) + fits_of(ops.take(0)));
        }
        while rest.len() > 0
            invariant
                0 <= m <= ops.len(),
                rest@ =~= ops.skip(m),
                effects@ =~= e0 + ops_effects(ops.take(m)),
                issue_views(report.issues@) =~= issue_views(i0) + no_fit_issues(ops.take(m)),
                fit_views(report.fitted@) =~= fit_views(f0) + fits_of(ops.take(m)),
                report.displaced == d0 + displaced_count(ops.take(m)),
                d0 + ops.len() <= usize::MAX,
                report.stale == old(report).stale,
                report.commit_errors == old(report).commit_errors,
                report.action_succeeded == (old(report).action_succeeded || changed),
                report.purpose == old(report).purpose,
                report.mode == old(report).mode,
                report.unmatched == old(report).unmatched,
                report.ambiguous == old(report).ambiguous,
            decreases rest@.len(),
        {
            let op = rest.remove(0);
            proof {
                assert(op == ops[m]);
                assert(ops.take(m + 1).drop_last() =~= ops.take(m));
                assert(ops.take(m + 1).last() == ops[m]);
                lemma_displaced_bounded(ops.take(m + 1));
            }
            match op {
                DiblOperationResult::Fitted { ordinal, import, at, second_vds, displaced } => {
                    let name = owned(import.source.name());
                    let ghost before = report.fitted@;
                    let fit = DiblFit { name, second_vds, at };
                    report.fitted.push(fit);
                    proof {
                        lemma_fit_views_push(before, fit);
                    }
                    effects.push(PendingEffect::FreshClear { ordinal, source: import.source });
                    match displaced {
                        Some(d) => {
                            report.displaced = report.displaced + 1;
                            let RankedPendingDibl { generation, pending } = d;
                            match generation {
                                Some(g) => {
                                    effects.push(PendingEffect::FreshPending { ordinal: g, pending });
                                },
                                None => {
                                    effects.push(
                                        PendingEffect::PreCommandDisplacement { ordinal, pending },
                                    );
                                },
                            }
                        },
                        None => {},
                    }
                },
                DiblOperationResult::NoFit { ordinal, import, message } => {
                    let name = owned(import.source.name());
                    let DiblImport { source, second } = import;
                    effects.push(
                        PendingEffect::FreshPending {
                            ordinal,
                            pending: PendingDibl { source, second, reason: PendingDiblReason::NoFit },
                        },
                    );
                    let ghost before = report.issues@;
                    let new_issue = DiblIssue { name, message, kind: DiblIssueKind::NoFit };
                    report.issues.push(new_issue);
                    proof {
                        lemma_issue_views_push(before, new_issue);
                    }
                },
            }
            proof {
                assert(effects@ =~= e0 + ops_effects(ops.take(m + 1)));
                assert(issue_views(report.issues@) =~= issue_views(i0) + no_fit_issues(ops.take(m + 1)));
                assert(fit_views(report.fitted@) =~= fit_views(f0) + fits_of(ops.take(m + 1)));
                m = m + 1;
            }
        }
        proof {
            assert(ops.take(m) =~= ops);
        }
        match clear_pending {
            Some(p) => {
                effects.push(PendingEffect::CurrentDetach(p));
            },
            None => {},
        }
        proof {
            assert(effects@ =~= old(effects)@ + job_effects(rows, old_job));
        }
    }

    /// Commits a finished DIBL refinement. Each job applies only when its row
    /// still has the identity and revision the plan captured; every file that
    /// could not be fitted stays pending, and the pending list takes all
    /// effects in their terminal order.
    pub fn commit_dibl_refinement<A>(&mut self, result: DiblRefinementResult<D, T, A>) -> (r:
        DiblCommitReport<A>)
        requires
            old(self).wf(),
            forall|j: int| 0 <= j < result.jobs@.len() ==> (#[trigger] result.jobs@[j]).science.wf(),
            forall|i: int|
                0 <= i < old(self).rows().len() ==> #[trigger] old(self).rows()[i].revision_val()
                    + result.jobs@.len() <= u64::MAX,
            result.summary.stale + result.jobs@.len() + total_operations(result.jobs@) < usize::MAX,
        ensures
            final(self).wf(),
            final(self).rows() == rows_after_jobs(old(self).rows(), result.jobs@),
            final(self).dibls() == pending_after(
                old(self).dibls(),
                result.summary.pending@.map_values(|d: DeferredDibl<T>| deferred_effect(d))
                    + jobs_effects(old(self).rows(), result.jobs@),
            ),
            final(self).outputs() == old(self).outputs(),
            final(self).selection() == old(self).selection(),
            final(self).model_index() == old(self).model_index(),
            final(self).next_id() == old(self).next_id(),
            r.purpose == result.purpose,
            r.mode == result.mode,
            r.unmatched == result.summary.unmatched,
            r.ambiguous == result.summary.ambiguous,
            r.stale == result.summary.stale + jobs_stale(old(self).rows(), result.jobs@),
            r.commit_errors == jobs_commit_errors(old(self).rows(), result.jobs@),
            r.displaced == jobs_displaced(old(self).rows(), result.jobs@),
            fit_views(r.fitted@) == jobs_fits(old(self).rows(), result.jobs@),
            issue_views(r.issues@) == issue_views(result.summary.issues@) + jobs_issues(
                old(self).rows(),
                result.jobs@,
            ),
            r.action_succeeded == jobs_succeeded(old(self).rows(), result.jobs@),
    {
        let DiblRefinementResult { purpose, mode, jobs, summary } = result;
        let DiblImportSummary { unmatched, ambiguous, stale, pending, issues } = summary;
        let mut report = DiblCommitReport {
            purpose,
            mode,
            fitted: Vec::new(),
            displaced: 0,
            unmatched,
            ambiguous,
            stale,
            commit_errors: 0,
            issues,
            action_succeeded: false,
        };
        let mut effects = deferred_into_effects(pending);
        let ghost rows0 = self.rows();
        let ghost all = jobs@;
        let ghost e0 = effects@;
        let ghost i0 = report.issues@;
        let mut rest = jobs;
        let ghost mut k: int = 0;
        proof {
            assert(all.take(0) =~= Seq::<DiblJobResult<D, T, A>>::empty());
            assert(e0 =~= e0 + jobs_effects(rows0, all.take(0)));
            assert(issue_views(i0) =~= issue_views(i0) + jobs_issues(rows0, all.take(0)));
            assert(fit_views(report.fitted@) =~= jobs_fits(rows0, all.take(0)));
        }
        while rest.len() > 0
            invariant
                0 <= k <= all.len(),
                rest@ =~= all.skip(k),
                self.wf(),
                forall|j: int| 0 <= j < all.len() ==> (#[trigger] all[j]).science.wf(),
                forall|i: int|
                    0 <= i < rows0.len() ==> #[trigger] rows0[i].revision_val() + all.len()
                        <= u64::MAX,
                stale + all.len() + total_operations(all) < usize::MAX,
                self.rows() == rows_after_jobs(rows0, all.take(k)),
                self.outputs() == old(self).outputs(),
                self.dibls() == old(self).dibls(),
                self.selection() == old(self).selection(),
                self.model_index() == old(self).model_index(),
                self.next_id() == old(self).next_id(),
                rows0 == old(self).rows(),
                effects@ =~= e0 + jobs_effects(rows0, all.take(k)),
                issue_views(report.issues@) =~= issue_views(i0) + jobs_issues(rows0, all.take(k)),
                fit_views(report.fitted@) =~= jobs_fits(rows0, all.take(k)),
                report.displaced == jobs_displaced(rows0, all.take(k)),
                report.stale == stale + jobs_stale(rows0, all.take(k)),
                report.commit_errors == jobs_commit_errors(rows0, all.take(k)),
                report.action_succeeded == jobs_succeeded(rows0, all.take(k)),
                report.purpose == purpose,
                report.mode == mode,
                report.unmatched == unmatched,
                report.ambiguous == ambiguous,
            decreases rest@.len(),
        {
            let job = rest.remove(0);
            proof {
                assert(job == all[k]);
                let t = all.take(k + 1);
                assert(t.drop_last() =~= all.take(k));
                assert(t.last() == all[k]);
                lemma_rows_after_jobs(rows0, all.take(k));
                lemma_jobs_counters_bounded(rows0, all.take(k));
                lemma_total_prefix(all, k + 1);
                assert(total_operations(t) == total_operations(all.take(k)) + all[k].operations@.len());
                assert forall|i: int| 0 <= i < self.rows().len() implies #[trigger] self.rows()[i].revision_val() < u64::MAX by {
                    assert(self.rows()[i].revision_val() <= rows0[i].revision_val() + k);
                }
            }
            self.commit_dibl_job(job, &mut effects, &mut report);
            proof {
                let t = all.take(k + 1);
                assert(t.drop_last() =~= all.take(k));
                assert(effects@ =~= e0 + jobs_effects(rows0, t));
                assert(issue_views(report.issues@) =~= issue_views(i0) + jobs_issues(rows0, t));
                assert(fit_views(report.fitted@) =~= jobs_fits(rows0, t));
                k = k + 1;
            }
        }
        proof {
            assert(all.take(k) =~= all);
        }
        self.apply_dibl_effects(effects);
        report
    }
}

// ---------------------------------------------------------------------------
// Parsed files
// ---------------------------------------------------------------------------

/// Issue text for a parsed DIBL file without a visible name.
pub const DIBL_SOURCE_NAME_MESSAGE: &'static str = "The DIBL file has no visible file name.";

/// One second-transfer file as the worker read it: its path, the canonical
/// form of that path when the filesystem gave one, its file name, and the
/// measurement or the parser's message.
pub struct ParsedDibl<T> {
    pub path: String,
    pub canonical: Option<String>,
    pub name: String,
    pub result: Result<T, String>,
}

/// The imports of a parsed batch, in order: each file that parsed and has a
/// visible name.
pub open spec fn parsed_dibl_imports<T>(s: Seq<ParsedDibl<T>>) -> Seq<(ProvenanceView, T)>
    decreases s.len(),
{
    if s.len() == 0 {
        Seq::empty()
    } else {
        let p = s.last();
        parsed_dibl_imports(s.drop_last()) + match p.result {
            Ok(t) => if is_blank(p.name@) {
                Seq::empty()
            } else {
                seq![(parsed_view(p.path@, opt_view(p.canonical), p.name@), t)]
            },
            Err(_) => Seq::empty(),
        }
    }
}

/// The parse issues of a parsed batch, in order: each parser failure, and
/// each parsed file without a visible name, under the file's visible name.
pub open spec fn parsed_dibl_issues<T>(s: Seq<ParsedDibl<T>>) -> Seq<(Seq<char>, Seq<char>, DiblIssueKind)>
    decreases s.len(),
{
    if s.len() == 0 {
        Seq::empty()
    } else {
        let p = s.last();
        parsed_dibl_issues(s.drop_last()) + match p.result {
            Ok(_) => if is_blank(p.name@) {
                seq![(visible_name(p.name@, p.path@), DIBL_SOURCE_NAME_MESSAGE@, DiblIssueKind::Parse)]
            } else {
                Seq::empty()
            },
            Err(m) => seq![(visible_name(p.name@, p.path@), m@, DiblIssueKind::Parse)],
        }
    }
}

pub open spec fn import_key<T>(i: DiblImport<T>) -> (ProvenanceView, T) {
    (i.source@, i.second)
}

/// Splits a parsed batch into imports and parse issues, each in order.
pub fn dibl_imports_from_parsed<T>(parsed: Vec<ParsedDibl<T>>) -> (r: (Vec<DiblImport<T>>, Vec<DiblIssue>))
    ensures
        r.0@.map_values(|i: DiblImport<T>| import_key(i)) == parsed_dibl_imports(parsed@),
        forall|i: int| 0 <= i < r.0@.len() ==> (#[trigger] r.0@[i]).source.wf(),
        issue_views(r.1@) == parsed_dibl_issues(parsed@),
{
    let ghost all = parsed@;
    let mut imports: Vec<DiblImport<T>> = Vec::new();
    let mut issues: Vec<DiblIssue> = Vec::new();
    let mut rest = parsed;
    let ghost mut k: int = 0;
    proof {
        assert(all.take(0) =~= Seq::<ParsedDibl<T>>::empty());
        assert(imports@.map_values(|i: DiblImport<T>| import_key(i)) =~= Seq::<(ProvenanceView, T)>::empty());
        assert(issue_views(issues@) =~= Seq::<(Seq<char>, Seq<char>, DiblIssueKind)>::empty());
    }
    while rest.len() > 0
        invariant
            0 <= k <= all.len(),
            rest@ =~= all.skip(k),
            imports@.map_values(|i: DiblImport<T>| import_key(i)) == parsed_dibl_imports(all.take(k)),
            forall|i: int| 0 <= i < imports@.len() ==> (#[trigger] imports@[i]).source.wf(),
            issue_views(issues@) == parsed_dibl_issues(all.take(k)),
        decreases rest@.len(),
    {
        let p = rest.remove(0);
        let ghost t = all.take(k + 1);
        proof {
            assert(all[k] == p);
            assert(t.drop_last() =~= all.take(k));
            assert(t.last() == p);
        }
        let ghost before_imports = imports@;
        let ghost before_issues = issues@;
        let ParsedDibl { path, canonical, name, result } = p;
        match result {
            Ok(second) => {
                match DiblSource::new(name.as_str(), Some(path.clone())) {
                    Ok(mut source) => {
                        match &canonical {
                            Some(c) => source.resolve_identity(c.as_str()),
                            None => {},
                        }
                        imports.push(DiblImport { source, second });
                        proof {
                            assert(imports@ =~= before_imports.push(imports@.last()));
                            assert(imports@.map_values(|i: DiblImport<T>| import_key(i)) =~= before_imports.map_values(
                                |i: DiblImport<T>| import_key(i),
                            ).push(import_key(imports@.last())));
                            assert(issue_views(issues@) =~= issue_views(before_issues));
                        }
                    },
                    Err(_) => {
                        let issue = DiblIssue {
                            name: visible_source_name(name.as_str(), path.as_str()),
                            message: owned(DIBL_SOURCE_NAME_MESSAGE),
                            kind: DiblIssueKind::Parse,
                        };
                        issues.push(issue);
                        proof {
                            assert(issue_views(issues@) =~= issue_views(before_issues).push(issues@.last()@));
                        }
                    },
                }
            },
            Err(message) => {
                let issue = DiblIssue {
                    name: visible_source_name(name.as_str(), path.as_str()),
                    message,
                    kind: DiblIssueKind::Parse,
                };
                issues.push(issue);
                proof {
                    assert(issue_views(issues@) =~= issue_views(before_issues).push(issues@.last()@));
                }
            },
        }
        proof {
            k = k + 1;
        }
    }
    proof {
        assert(all.take(k) =~= all);
    }
    (imports, issues)
}

// ---------------------------------------------------------------------------
// Planning
// ---------------------------------------------------------------------------

/// What the worker does for one device.
pub enum DiblOperation<T> {
    /// Fit DIBL with `import`, replacing the attached second transfer.
    Replace { ordinal: usize, import: DiblImport<T> },
    /// Detach the second transfer; `keep_pending` keeps it as pending.
    Clear { keep_pending: bool },
}

/// The worker's input for one device: the row's token and a copy of its science.
pub struct DiblJob<D, T> {
    pub token: DeviceToken,
    pub device_name: String,
    pub science: DeviceScience<D>,
    pub operations: Vec<DiblOperation<T>>,
}

pub struct DiblRefinementPlan<D, T> {
    pub purpose: DiblRefinementPurpose,
    pub mode: DiblRefinementMode,
    pub jobs: Vec<DiblJob<D, T>>,
    pub summary: DiblImportSummary<T>,
}

impl<T> DiblImportSummary<T> {
    /// A summary that deferred nothing.
    pub fn empty() -> (r: Self)
        ensures
            r.unmatched == 0,
            r.ambiguous == 0,
            r.stale == 0,
            r.pending@.len() == 0,
            r.issues@.len() == 0,
    {
        DiblImportSummary { unmatched: 0, ambiguous: 0, stale: 0, pending: Vec::new(), issues: Vec::new() }
    }
}

/// The row pairs by name with a second transfer of normalized stem `stem`.
pub open spec fn pairs_with<D>(e: DeviceEntry<D>, stem: Seq<char>) -> bool {
    dibl_key(e.science_spec().stem()) == dibl_key(stem)
}

/// Number of rows that pair by name with `stem`.
pub open spec fn key_match_count<D>(rows: Seq<DeviceEntry<D>>, stem: Seq<char>) -> nat
    decreases rows.len(),
{
    if rows.len() == 0 {
        0
    } else {
        key_match_count(rows.drop_last(), stem) + if pairs_with(rows.last(), stem) {
            1nat
        } else {
            0nat
        }
    }
}

/// Some row still carries the identity `target`.
pub open spec fn target_live<D>(rows: Seq<DeviceEntry<D>>, target: Option<DeviceId>) -> bool {
    target matches Some(id) && exists|i: int| 0 <= i < rows.len() && (#[trigger] rows[i]).id_val() == id.val()
}

/// The file's candidate rows: with a file chosen for one device, that device
/// while it lives; otherwise the rows that pair by name.
pub open spec fn match_count<D>(rows: Seq<DeviceEntry<D>>, stem: Seq<char>, single: bool, target: Option<DeviceId>) -> nat {
    if single {
        if target_live(rows, target) {
            1
        } else {
            0
        }
    } else {
        key_match_count(rows, stem)
    }
}

/// The one candidate row, when there is exactly one.
pub open spec fn matched_row<D>(rows: Seq<DeviceEntry<D>>, stem: Seq<char>, single: bool, target: Option<DeviceId>) -> int {
    if single {
        choose|i: int| 0 <= i < rows.len() && (#[trigger] rows[i]).id_val() == target.unwrap().val()
    } else {
        choose|i: int| 0 <= i < rows.len() && pairs_with(#[trigger] rows[i], stem)
    }
}

/// The replace operations of the files with exactly one candidate row,
/// grouped by row in the order each row was first chosen.
pub open spec fn planned_groups<D, T>(
    rows: Seq<DeviceEntry<D>>,
    stems: Seq<Seq<char>>,
    imports: Seq<DiblImport<T>>,
    single: bool,
    target: Option<DeviceId>,
) -> Seq<(int, Seq<DiblOperation<T>>)>
    decreases imports.len(),
{
    if imports.len() == 0 {
        Seq::empty()
    } else {
        let n = imports.len() - 1;
        let g = planned_groups(rows, stems, imports.drop_last(), single, target);
        if match_count(rows, stems[n], single, target) == 1 {
            add_to_group(
                g,
                matched_row(rows, stems[n], single, target),
                DiblOperation::Replace { ordinal: n as usize, import: imports[n] },
            )
        } else {
            g
        }
    }
}

/// The files without a candidate row (the device changed, when one was
/// chosen; else no match) or with several (ambiguous), in dialog order.
pub open spec fn planned_deferred<D, T>(
    rows: Seq<DeviceEntry<D>>,
    stems: Seq<Seq<char>>,
    imports: Seq<DiblImport<T>>,
    single: bool,
    target: Option<DeviceId>,
) -> Seq<DeferredDibl<T>>
    decreases imports.len(),
{
    if imports.len() == 0 {
        Seq::empty()
    } else {
        let n = imports.len() - 1;
        let d = planned_deferred(rows, stems, imports.drop_last(), single, target);
        let c = match_count(rows, stems[n], single, target);
        if c == 0 {
            d.push(
                DeferredDibl {
                    ordinal: n as usize,
                    import: imports[n],
                    reason: if single {
                        PendingDiblReason::DeviceChanged
                    } else {
                        PendingDiblReason::NoMatch
                    },
                },
            )
        } else if c >= 2 {
            d.push(DeferredDibl { ordinal: n as usize, import: imports[n], reason: PendingDiblReason::Ambiguous })
        } else {
            d
        }
    }
}

/// The issues planning adds: each file chosen for a device that is gone.
pub open spec fn planned_issues<D, T>(
    rows: Seq<DeviceEntry<D>>,
    stems: Seq<Seq<char>>,
    imports: Seq<DiblImport<T>>,
    single: bool,
    target: Option<DeviceId>,
) -> Seq<(Seq<char>, Seq<char>, DiblIssueKind)>
    decreases imports.len(),
{
    if imports.len() == 0 {
        Seq::empty()
    } else {
        let n = imports.len() - 1;
        let d = planned_issues(rows, stems, imports.drop_last(), single, target);
        if single && match_count(rows, stems[n], single, target) == 0 {
            d.push((imports[n].source@.name, DIBL_STALE_MESSAGE@, DiblIssueKind::Stale))
        } else {
            d
        }
    }
}

/// How many of the first `n` files have no candidate row (`zero`) or
/// several (`!zero`).
pub open spec fn planned_count<D>(
    rows: Seq<DeviceEntry<D>>,
    stems: Seq<Seq<char>>,
    n: int,
    single: bool,
    target: Option<DeviceId>,
    zero: bool,
) -> nat
    decreases n,
{
    if n <= 0 {
        0
    } else {
        let c = match_count(rows, stems[n - 1], single, target);
        planned_count(rows, stems, n - 1, single, target, zero) + if (zero && c == 0) || (!zero && c
            >= 2) {
            1nat
        } else {
            0nat
        }
    }
}

/// A job stands for the group of row `r`: that row's token, name and science,
/// and exactly the group's operations.
pub open spec fn job_for<D: Clone, T>(
    job: DiblJob<D, T>,
    rows: Seq<DeviceEntry<D>>,
    r: int,
    ops: Seq<DiblOperation<T>>,
) -> bool {
    &&& 0 <= r < rows.len()
    &&& job.token.id_val() == rows[r].id_val()
    &&& job.token.revision_val() == rows[r].revision_val()
    &&& job.device_name@ == rows[r].science_spec().name()
    &&& job.science.agrees(&rows[r].science_spec())
    &&& cloned(rows[r].science_spec().device_spec(), job.science.device_spec())
    &&& job.science.wf()
    &&& job.operations@ == ops
}

/// The plan of a detach (keeping the measurement pending) or a removal of
/// the second transfer of row `idx`: one job on that row that clears it.
pub open spec fn clear_plan<D: Clone, T>(
    p: DiblRefinementPlan<D, T>,
    rows: Seq<DeviceEntry<D>>,
    idx: int,
    purpose: DiblRefinementPurpose,
) -> bool {
    &&& p.purpose == purpose
    &&& p.mode == DiblRefinementMode::Single
    &&& p.summary.unmatched == 0 && p.summary.ambiguous == 0 && p.summary.stale == 0
    &&& p.summary.pending@.len() == 0 && p.summary.issues@.len() == 0
    &&& p.jobs@.len() == 1
    &&& job_for(
        p.jobs@[0],
        rows,
        idx,
        seq![DiblOperation::Clear { keep_pending: purpose == DiblRefinementPurpose::Detach }],
    )
}

/// The plan of attaching pending DIBL measurement `pending_idx` to row
/// `sel`: one job on that row that imports that pending file's source and a
/// clone of its measurement.
pub open spec fn attach_plan<D: Clone, T: Clone>(
    p: DiblRefinementPlan<D, T>,
    rows: Seq<DeviceEntry<D>>,
    dibls: Seq<PendingDibl<T>>,
    sel: int,
    pending_idx: int,
) -> bool {
    &&& p.purpose == DiblRefinementPurpose::AttachPending
    &&& p.mode == DiblRefinementMode::Single
    &&& p.summary.unmatched == 0 && p.summary.ambiguous == 0 && p.summary.stale == 0
    &&& p.summary.pending@.len() == 0 && p.summary.issues@.len() == 0
    &&& p.jobs@.len() == 1
    &&& p.jobs@[0].operations@.len() == 1
    &&& p.jobs@[0].operations@[0] matches DiblOperation::Replace { ordinal, import }
        && ordinal == 0 && import.source == dibls[pending_idx].source
        && cloned(dibls[pending_idx].second, import.second)
    &&& job_for(p.jobs@[0], rows, sel, p.jobs@[0].operations@)
}

pub open spec fn jobs_for_groups<D: Clone, T>(
    jobs: Seq<DiblJob<D, T>>,
    rows: Seq<DeviceEntry<D>>,
    g: Seq<(int, Seq<DiblOperation<T>>)>,
) -> bool {
    &&& jobs.len() == g.len()
    &&& forall|k: int| 0 <= k < g.len() ==> job_for(#[trigger] jobs[k], rows, g[k].0, g[k].1)
    &&& forall|a: int, b: int| 0 <= a < b < g.len() ==> g[a].0 != g[b].0
}

proof fn lemma_key_match_count_witness<D>(rows: Seq<DeviceEntry<D>>, stem: Seq<char>, i: int)
    requires
        0 <= i < rows.len(),
        pairs_with(rows[i], stem),
    ensures
        key_match_count(rows, stem) >= 1,
    decreases rows.len(),
{
    if i < rows.len() - 1 {
        lemma_key_match_count_witness(rows.drop_last(), stem, i);
    }
}

proof fn lemma_key_match_count_take<D>(rows: Seq<DeviceEntry<D>>, stem: Seq<char>, n: int)
    requires
        0 <= n < rows.len(),
    ensures
        key_match_count(rows.take(n + 1), stem) == key_match_count(rows.take(n), stem) + if pairs_with(
            rows[n],
            stem,
        ) {
            1nat
        } else {
            0nat
        },
{
    assert(rows.take(n + 1).drop_last() =~= rows.take(n));
}

proof fn lemma_key_match_count_two<D>(rows: Seq<DeviceEntry<D>>, stem: Seq<char>, i: int, j: int)
    requires
        0 <= i < rows.len(),
        0 <= j < rows.len(),
        pairs_with(rows[i], stem),
        pairs_with(rows[j], stem),
        i != j,
    ensures
        key_match_count(rows, stem) >= 2,
    decreases rows.len(),
{
    let n = rows.len() - 1;
    if i == n {
        lemma_key_match_count_witness(rows.drop_last(), stem, j);
    } else if j == n {
        lemma_key_match_count_witness(rows.drop_last(), stem, i);
    } else {
        lemma_key_match_count_two(rows.drop_last(), stem, i, j);
    }
}

impl<D: Clone, C, T> ModelFitState<D, C, T> {
    /// The rows pairing by name with the normalized stem `stem`: the first
    /// two found.
    fn first_two_key_matches(&self, stem: &str) -> (r: (Option<usize>, Option<usize>))
        requires
            self.wf(),
        ensures
            key_match_count(self.rows(), stem@) == 0 <==> r.0 is None,
            key_match_count(self.rows(), stem@) == 1 <==> (r.0 is Some && r.1 is None),
            r.0 matches Some(i) ==> i < self.rows().len(),
            key_match_count(self.rows(), stem@) == 1 ==> r.0.unwrap() == matched_row(
                self.rows(),
                stem@,
                false,
                None,
            ),
    {
        let key = dibl_pair_key(stem);
        let rows = self.devices();
        let mut first: Option<usize> = None;
        let mut i: usize = 0;
        while i < rows.len()
            invariant
                i <= rows@.len(),
                rows@ == self.rows(),
                key@ == dibl_key(stem@),
                key_match_count(rows@.take(i as int), stem@) == if first is Some {
                    1nat
                } else {
                    0nat
                },
                first matches Some(f) ==> f < i && pairs_with(rows@[f as int], stem@),
            decreases rows@.len() - i,
        {
            proof {
                lemma_key_match_count_take(rows@, stem@, i as int);
            }
            let other = dibl_pair_key(rows[i].science().stem_str());
            if str_eq(other.as_str(), key.as_str()) {
                match first {
                    None => {
                        first = Some(i);
                    },
                    Some(f) => {
                        proof {
                            lemma_key_match_count_two(rows@, stem@, f as int, i as int);
                        }
                        return (first, Some(i));
                    },
                }
            }
            i = i + 1;
        }
        proof {
            assert(rows@.take(i as int) =~= rows@);
            if let Some(f) = first {
                let m = matched_row(rows@, stem@, false, None);
                if m != f {
                    lemma_key_match_count_two(rows@, stem@, f as int, m);
                }
            }
        }
        (first, None)
    }

    /// The row that carries identity `id`, if any.
    fn row_with_id(&self, id: DeviceId) -> (r: Option<usize>)
        requires
            self.wf(),
        ensures
            r is Some <==> target_live(self.rows(), Some(id)),
            r matches Some(i) ==> i == matched_row(self.rows(), Seq::empty(), true, Some(id)),
            r matches Some(i) ==> i < self.rows().len(),
    {
        proof {
            self.lemma_wf_rows();
        }
        let rows = self.devices();
        let mut i: usize = 0;
        while i < rows.len()
            invariant
                self.wf(),
                i <= rows@.len(),
                rows@ == self.rows(),
                forall|j: int| 0 <= j < i ==> (#[trigger] rows@[j]).id_val() != id.val(),
            decreases rows@.len() - i,
        {
            if rows[i].id().get() == id.get() {
                proof {
                    self.lemma_wf_rows();
                    let m = matched_row(rows@, Seq::empty(), true, Some(id));
                    assert(rows@[i as int].id_val() == id.val());
                    if m != i {
                        assert(rows@[m].id_val() != rows@[i as int].id_val());
                    }
                }
                return Some(i);
            }
            i = i + 1;
        }
        None
    }

    /// A job for row `r` with the single operation `op`.
    fn dibl_job_for_row(&self, r: usize, op: DiblOperation<T>) -> (j: DiblJob<D, T>)
        requires
            self.wf(),
            r < self.rows().len(),
        ensures
            job_for(j, self.rows(), r as int, seq![op]),
    {
        proof {
            self.lemma_wf_rows();
        }
        let entry = &self.devices()[r];
        let mut operations = Vec::new();
        operations.push(op);
        DiblJob {
            token: entry.token(),
            device_name: owned(entry.science().name_str()),
            science: entry.science().duplicate(),
            operations,
        }
    }

    /// Adds `op` to the job of row `r`, or opens that job last.
    fn push_dibl_import(
        &self,
        jobs: &mut Vec<DiblJob<D, T>>,
        r: usize,
        op: DiblOperation<T>,
        Ghost(g): Ghost<Seq<(int, Seq<DiblOperation<T>>)>>,
    )
        requires
            self.wf(),
            r < self.rows().len(),
            jobs_for_groups(old(jobs)@, self.rows(), g),
        ensures
            jobs_for_groups(final(jobs)@, self.rows(), add_to_group(g, r as int, op)),
    {
        proof {
            self.lemma_wf_rows();
        }
        let id = self.devices()[r].id().get();
        let mut k: usize = 0;
        while k < jobs.len()
            invariant
                self.wf(),
                k <= jobs@.len(),
                jobs@ == old(jobs)@,
                jobs_for_groups(jobs@, self.rows(), g),
                id == self.rows()[r as int].id_val(),
                r < self.rows().len(),
                forall|j: int| 0 <= j < k ==> g[j].0 != r,
            decreases jobs@.len() - k,
        {
            if jobs[k].token.id().get() == id {
                proof {
                    self.lemma_wf_rows();
                    assert(job_for(jobs@[k as int], self.rows(), g[k as int].0, g[k as int].1));
                    assert(g[k as int].0 == r as int);
                    assert(exists|q: int| 0 <= q < g.len() && (#[trigger] g[q]).0 == r);
                    let c = choose|q: int| 0 <= q < g.len() && (#[trigger] g[q]).0 == r;
                    assert(c == k);
                }
                let mut job = jobs.remove(k);
                job.operations.push(op);
                jobs.insert(k, job);
                proof {
                    let g2 = add_to_group(g, r as int, op);
                    assert forall|q: int| 0 <= q < g2.len() implies job_for(
                        #[trigger] jobs@[q],
                        self.rows(),
                        g2[q].0,
                        g2[q].1,
                    ) by {
                        if q != k {
                            assert(jobs@[q] == old(jobs)@[q]);
                        }
                    }
                }
                return ;
            }
            proof {
                assert(job_for(jobs@[k as int], self.rows(), g[k as int].0, g[k as int].1));
            }
            k = k + 1;
        }
        let job = self.dibl_job_for_row(r, op);
        jobs.push(job);
        proof {
            let g2 = add_to_group(g, r as int, op);
            assert(!exists|q: int| 0 <= q < g.len() && (#[trigger] g[q]).0 == r);
            assert forall|q: int| 0 <= q < g2.len() implies job_for(
                #[trigger] jobs@[q],
                self.rows(),
                g2[q].0,
                g2[q].1,
            ) by {
                if q < g.len() {
                    assert(jobs@[q] == old(jobs)@[q]);
                }
            }
        }
    }

    /// Plans a DIBL import. With a file chosen for one device
    /// (`single_file_dialog`), every file goes to `single_target` while that
    /// row lives and otherwise waits as "device changed" with a stale issue;
    /// in a batch, each file goes to the one row it pairs with by name, and a
    /// file pairing with no row or with several waits as pending. `stems`
    /// holds the normalized file stem of each import's name.
    pub fn plan_dibl_refinement(
        &self,
        imports: Vec<DiblImport<T>>,
        stems: Vec<String>,
        single_target: Option<DeviceId>,
        single_file_dialog: bool,
        parse_issues: Vec<DiblIssue>,
    ) -> (r: DiblRefinementPlan<D, T>)
        requires
            self.wf(),
            stems@.len() == imports@.len(),
        ensures
            r.purpose == DiblRefinementPurpose::Import,
            r.mode == if single_file_dialog {
                DiblRefinementMode::Single
            } else {
                DiblRefinementMode::Batch
            },
            issue_views(r.summary.issues@) == issue_views(parse_issues@) + planned_issues(
                self.rows(),
                stems@.map_values(|s: String| s@),
                imports@,
                single_file_dialog,
                single_target,
            ),
            r.summary.pending@ == planned_deferred(
                self.rows(),
                stems@.map_values(|s: String| s@),
                imports@,
                single_file_dialog,
                single_target,
            ),
            r.summary.unmatched == if single_file_dialog {
                0
            } else {
                planned_count(
                    self.rows(),
                    stems@.map_values(|s: String| s@),
                    imports@.len() as int,
                    single_file_dialog,
                    single_target,
                    true,
                )
            },
            r.summary.stale == if single_file_dialog {
                planned_count(
                    self.rows(),
                    stems@.map_values(|s: String| s@),
                    imports@.len() as int,
                    single_file_dialog,
                    single_target,
                    true,
                )
            } else {
                0
            },
            r.summary.ambiguous == planned_count(
                self.rows(),
                stems@.map_values(|s: String| s@),
                imports@.len() as int,
                single_file_dialog,
                single_target,
                false,
            ),
            jobs_for_groups(
                r.jobs@,
                self.rows(),
                planned_groups(
                    self.rows(),
                    stems@.map_values(|s: String| s@),
                    imports@,
                    single_file_dialog,
                    single_target,
                ),
            ),
    {
        let ghost keys = stems@.map_values(|s: String| s@);
        let ghost all = imports@;
        let ghost single = single_file_dialog;
        let count = imports.len();
        let target_row = match single_target {
            Some(id) => self.row_with_id(id),
            None => None,
        };
        let mut rest = imports;
        let mut jobs: Vec<DiblJob<D, T>> = Vec::new();
        let mut pending: Vec<DeferredDibl<T>> = Vec::new();
        let mut issues = parse_issues;
        let ghost i0 = issues@;
        let mut unmatched: usize = 0;
        let mut stale: usize = 0;
        let mut ambiguous: usize = 0;
        let mut n: usize = 0;
        proof {
            assert(all.take(0) =~= Seq::<DiblImport<T>>::empty());
            assert(issue_views(i0) =~= issue_views(i0) + planned_issues(self.rows(), keys, all.take(0), single, single_target));
        }
        while rest.len() > 0
            invariant
                self.wf(),
                n <= all.len(),
                all.len() == count,
                stems@.len() == all.len(),
                keys == stems@.map_values(|s: String| s@),
                single == single_file_dialog,
                rest@ =~= all.skip(n as int),
                target_row is Some <==> target_live(self.rows(), single_target),
                target_row matches Some(t) ==> t < self.rows().len() && t == matched_row(self.rows(), Seq::empty(), true, single_target),
                jobs_for_groups(
                    jobs@,
                    self.rows(),
                    planned_groups(self.rows(), keys, all.take(n as int), single, single_target),
                ),
                pending@ == planned_deferred(self.rows(), keys, all.take(n as int), single, single_target),
                issue_views(issues@) == issue_views(i0) + planned_issues(self.rows(), keys, all.take(n as int), single, single_target),
                unmatched == if single { 0 } else { planned_count(self.rows(), keys, n as int, single, single_target, true) },
                stale == if single { planned_count(self.rows(), keys, n as int, single, single_target, true) } else { 0 },
                ambiguous == planned_count(self.rows(), keys, n as int, single, single_target, false),
                unmatched <= n,
                stale <= n,
                ambiguous <= n,
            decreases rest@.len(),
        {
            let import = rest.remove(0);
            proof {
                assert(import == all[n as int]);
                assert(all.take(n + 1).drop_last() =~= all.take(n as int));
                assert(all.take(n + 1)[n as int] == all[n as int]);
                assert(keys[n as int] == stems@[n as int]@);
            }
            let (first, second) = if single_file_dialog {
                (target_row, None)
            } else {
                self.first_two_key_matches(stems[n].as_str())
            };
            match (first, second) {
                (Some(r), None) => {
                    proof {
                        if single {
                            assert(matched_row(self.rows(), keys[n as int], true, single_target) == matched_row(self.rows(), Seq::empty(), true, single_target));
                        }
                    }
                    let ghost g = planned_groups(self.rows(), keys, all.take(n as int), single, single_target);
                    self.push_dibl_import(
                        &mut jobs,
                        r,
                        DiblOperation::Replace { ordinal: n, import },
                        Ghost(g),
                    );
                },
                (None, _) => {
                    if single_file_dialog {
                        stale = stale + 1;
                        let name = owned(import.source.name());
                        let ghost before = issues@;
                        let new_issue = issue(name, DIBL_STALE_MESSAGE, DiblIssueKind::Stale);
                        issues.push(new_issue);
                        proof {
                            lemma_issue_views_push(before, new_issue);
                        }
                        pending.push(
                            DeferredDibl { ordinal: n, import, reason: PendingDiblReason::DeviceChanged },
                        );
                    } else {
                        unmatched = unmatched + 1;
                        pending.push(DeferredDibl { ordinal: n, import, reason: PendingDiblReason::NoMatch });
                    }
                },
                (Some(_), Some(_)) => {
                    ambiguous = ambiguous + 1;
                    pending.push(DeferredDibl { ordinal: n, import, reason: PendingDiblReason::Ambiguous });
                },
            }
            n = n + 1;
        }
        proof {
            assert(all.take(n as int) =~= all);
        }
        DiblRefinementPlan {
            purpose: DiblRefinementPurpose::Import,
            mode: if single_file_dialog {
                DiblRefinementMode::Single
            } else {
                DiblRefinementMode::Batch
            },
            jobs,
            summary: DiblImportSummary { unmatched, ambiguous, stale, pending, issues },
        }
    }
}

impl<D: Clone, C, T: Clone> ModelFitState<D, C, T> {
    /// Plans fitting pending DIBL measurement `pending_idx` to the selected
    /// row; none without a selection or such a pending row.
    pub fn plan_pending_dibl_attach(&self, pending_idx: usize) -> (r: Option<
        DiblRefinementPlan<D, T>,
    >)
        requires
            self.wf(),
        ensures
            r is Some <==> (self.selection() is Some && pending_idx < self.dibls().len()),
            r matches Some(p) ==> attach_plan(
                p,
                self.rows(),
                self.dibls(),
                self.selection().unwrap() as int,
                pending_idx as int,
            ),
    {
        proof {
            self.lemma_wf_rows();
        }
        let sel = match self.selected_index() {
            Some(i) => i,
            None => {
                return None;
            },
        };
        if pending_idx >= self.pending_dibls().len() {
            return None;
        }
        let pending = &self.pending_dibls()[pending_idx];
        let import = DiblImport { source: pending.source.duplicate(), second: pending.second.clone() };
        let job = self.dibl_job_for_row(sel, DiblOperation::Replace { ordinal: 0, import });
        let mut jobs = Vec::new();
        jobs.push(job);
        Some(
            DiblRefinementPlan {
                purpose: DiblRefinementPurpose::AttachPending,
                mode: DiblRefinementMode::Single,
                jobs,
                summary: DiblImportSummary::empty(),
            },
        )
    }
}

impl<D: Clone, C, T> ModelFitState<D, C, T> {
    /// Plans detaching (keeping it pending) or removing the second transfer of
    /// row `device_idx`; none when there is no such row or it has none.
    pub fn plan_dibl_clear(&self, device_idx: usize, purpose: DiblRefinementPurpose) -> (r: Option<
        DiblRefinementPlan<D, T>,
    >)
        requires
            self.wf(),
            purpose == DiblRefinementPurpose::Detach || purpose == DiblRefinementPurpose::Remove,
        ensures
            r is Some <==> (device_idx < self.rows().len() && self.rows()[device_idx as int].science_spec().has_second()),
            r matches Some(p) ==> clear_plan(p, self.rows(), device_idx as int, purpose),
    {
        if device_idx >= self.devices().len() {
            return None;
        }
        if !self.devices()[device_idx].science().has_second_transfer() {
            return None;
        }
        let keep_pending = match purpose {
            DiblRefinementPurpose::Detach => true,
            _ => false,
        };
        let job = self.dibl_job_for_row(device_idx, DiblOperation::Clear { keep_pending });
        let mut jobs = Vec::new();
        jobs.push(job);
        Some(DiblRefinementPlan { purpose, mode: DiblRefinementMode::Single, jobs, summary: DiblImportSummary::empty() })
    }
}

// ---------------------------------------------------------------------------
// Recovery after a failed worker
// ---------------------------------------------------------------------------

/// What a failed worker leaves: every file of the plan, to keep pending.
pub struct DiblRefinementRecovery<T> {
    pub purpose: DiblRefinementPurpose,
    pub mode: DiblRefinementMode,
    pub pending: Vec<DeferredDibl<T>>,
    pub issues: Vec<DiblIssue>,
}

pub struct DiblRecoveryReport {
    pub purpose: DiblRefinementPurpose,
    pub mode: DiblRefinementMode,
    pub recovered: usize,
    pub issues: Vec<DiblIssue>,
}

/// A deferred file as recovery keeps it: its place, provenance and reason.
pub open spec fn deferred_key<T>(d: DeferredDibl<T>) -> (usize, (DiblSource, PendingDiblReason)) {
    (d.ordinal, (d.import.source, d.reason))
}

/// The files of a job's replace operations, as "worker failed".
pub open spec fn replace_keys<T>(ops: Seq<DiblOperation<T>>) -> Seq<(usize, (DiblSource, PendingDiblReason))>
    decreases ops.len(),
{
    if ops.len() == 0 {
        Seq::empty()
    } else {
        replace_keys(ops.drop_last()) + match ops.last() {
            DiblOperation::Replace { ordinal, import } => seq![
                (ordinal, (import.source, PendingDiblReason::WorkerFailed)),
            ],
            DiblOperation::Clear { .. } => Seq::empty(),
        }
    }
}

pub open spec fn jobs_replace_keys<D, T>(jobs: Seq<DiblJob<D, T>>) -> Seq<(usize, (DiblSource, PendingDiblReason))>
    decreases jobs.len(),
{
    if jobs.len() == 0 {
        Seq::empty()
    } else {
        jobs_replace_keys(jobs.drop_last()) + replace_keys(jobs.last().operations@)
    }
}

fn duplicate_import<T: Clone>(import: &DiblImport<T>) -> (r: DiblImport<T>)
    ensures
        r.source == import.source,
        cloned(import.second, r.second),
{
    DiblImport { source: import.source.duplicate(), second: import.second.clone() }
}

/// Inserts `d` after every entry whose ordinal is at most its own.
fn insert_by_ordinal<T>(out: &mut Vec<DeferredDibl<T>>, d: DeferredDibl<T>)
    ensures
        final(out)@ == old(out)@.insert(
            count_first_le(old(out)@.map_values(|x: DeferredDibl<T>| deferred_key(x)), d.ordinal)
                as int,
            d,
        ),
        count_first_le(old(out)@.map_values(|x: DeferredDibl<T>| deferred_key(x)), d.ordinal)
            <= old(out)@.len(),
        final(out)@.map_values(|x: DeferredDibl<T>| deferred_key(x)) == old(out)@.map_values(
            |x: DeferredDibl<T>| deferred_key(x),
        ).insert(
            count_first_le(old(out)@.map_values(|x: DeferredDibl<T>| deferred_key(x)), d.ordinal)
                as int,
            deferred_key(d),
        ),
{
    let ghost keys = out@.map_values(|x: DeferredDibl<T>| deferred_key(x));
    let mut pos: usize = 0;
    let mut i: usize = 0;
    let n = out.len();
    while i < n
        invariant
            n == out@.len(),
            out@ == old(out)@,
            keys == out@.map_values(|x: DeferredDibl<T>| deferred_key(x)),
            i <= n,
            pos <= i,
            pos == count_first_le(keys.take(i as int), d.ordinal),
        decreases n - i,
    {
        proof {
            assert(keys.take(i + 1).drop_last() =~= keys.take(i as int));
        }
        if out[i].ordinal <= d.ordinal {
            pos = pos + 1;
        }
        i = i + 1;
    }
    proof {
        assert(keys.take(n as int) =~= keys);
    }
    out.insert(pos, d);
    proof {
        assert(out@.map_values(|x: DeferredDibl<T>| deferred_key(x)) =~= keys.insert(
            pos as int,
            deferred_key(d),
        ));
    }
}

/// `op` replaces with the file that `d` keeps as "worker failed", and `d`'s
/// measurement is a clone of that file's measurement.
pub open spec fn replace_source_of<T: Clone>(op: DiblOperation<T>, d: DeferredDibl<T>) -> bool {
    match op {
        DiblOperation::Replace { ordinal, import } => ordinal == d.ordinal && import.source
            == d.import.source && d.reason == PendingDiblReason::WorkerFailed && cloned(
            import.second,
            d.import.second,
        ),
        DiblOperation::Clear { .. } => false,
    }
}

/// A recovered file comes from the plan: it is a deferred file of the plan,
/// or the import of one of its replace operations (as "worker failed"), and
/// its measurement is a clone of that file's measurement.
pub open spec fn recovered_from<D, T: Clone>(plan: DiblRefinementPlan<D, T>, d: DeferredDibl<T>) -> bool {
    ||| exists|i: int|
        0 <= i < plan.summary.pending@.len() && deferred_key(#[trigger] plan.summary.pending@[i])
            == deferred_key(d) && cloned(plan.summary.pending@[i].import.second, d.import.second)
    ||| exists|j: int, q: int|
        0 <= j < plan.jobs@.len() && 0 <= q < plan.jobs@[j].operations@.len() && replace_source_of(
            #[trigger] plan.jobs@[j].operations@[q],
            d,
        )
}

proof fn lemma_insert_keeps_recovered<D, T: Clone>(
    plan: DiblRefinementPlan<D, T>,
    prev: Seq<DeferredDibl<T>>,
    next: Seq<DeferredDibl<T>>,
    d: DeferredDibl<T>,
    p: int,
)
    requires
        forall|k: int| 0 <= k < prev.len() ==> recovered_from(plan, #[trigger] prev[k]),
        recovered_from(plan, d),
        0 <= p <= prev.len(),
        next == prev.insert(p, d),
    ensures
        forall|k: int| 0 <= k < next.len() ==> recovered_from(plan, #[trigger] next[k]),
{
    assert forall|k: int| 0 <= k < next.len() implies recovered_from(plan, #[trigger] next[k]) by {
        if k < p {
            assert(next[k] == prev[k]);
        } else if k > p {
            assert(next[k] == prev[k - 1]);
        }
    }
}

impl<D, T: Clone> DiblRefinementPlan<D, T> {
    /// Everything a failed worker leaves pending: the deferred files and the
    /// file of every replace operation (as "worker failed"), stably ordered by
    /// dialog position; no science changes.
    pub fn panic_recovery(&self) -> (r: DiblRefinementRecovery<T>)
        ensures
            r.purpose == self.purpose,
            forall|k: int| 0 <= k < r.pending@.len() ==> recovered_from(*self, #[trigger] r.pending@[k]),
            r.mode == self.mode,
            r.pending@.map_values(|x: DeferredDibl<T>| deferred_key(x)) == stable_sort_by_first(
                self.summary.pending@.map_values(|x: DeferredDibl<T>| deferred_key(x))
                    + jobs_replace_keys(self.jobs@),
            ),
            issue_views(r.issues@) == issue_views(self.summary.issues@),
    {
        let ghost input = self.summary.pending@.map_values(|x: DeferredDibl<T>| deferred_key(x))
            + jobs_replace_keys(self.jobs@);
        let ghost np = self.summary.pending@.len() as int;
        let mut out: Vec<DeferredDibl<T>> = Vec::new();
        let ghost mut seen: int = 0;
        let mut i: usize = 0;
        proof {
            assert(input.take(0) =~= Seq::empty());
        }
        while i < self.summary.pending.len()
            invariant
                i <= self.summary.pending@.len(),
                np == self.summary.pending@.len(),
                input == self.summary.pending@.map_values(|x: DeferredDibl<T>| deferred_key(x))
                    + jobs_replace_keys(self.jobs@),
                out@.map_values(|x: DeferredDibl<T>| deferred_key(x)) == stable_sort_by_first(
                    input.take(i as int),
                ),
                forall|k: int| 0 <= k < out@.len() ==> recovered_from(*self, #[trigger] out@[k]),
            decreases self.summary.pending@.len() - i,
        {
            let d = &self.summary.pending[i];
            let copy = DeferredDibl { ordinal: d.ordinal, import: duplicate_import(&d.import), reason: d.reason };
            proof {
                assert(input.take(i + 1).drop_last() =~= input.take(i as int));
                assert(input.take(i + 1).last() == deferred_key(copy));
                assert(deferred_key(self.summary.pending@[i as int]) == deferred_key(copy));
                assert(recovered_from(*self, copy));
            }
            let ghost prev = out@;
            insert_by_ordinal(&mut out, copy);
            proof {
                lemma_insert_keeps_recovered(
                    *self,
                    prev,
                    out@,
                    copy,
                    count_first_le(prev.map_values(|x: DeferredDibl<T>| deferred_key(x)), copy.ordinal) as int,
                );
            }
            i = i + 1;
        }
        let mut j: usize = 0;
        let ghost mut done: int = np;
        proof {
            assert(self.jobs@.take(0) =~= Seq::<DiblJob<D, T>>::empty());
            assert(input.take(np) =~= self.summary.pending@.map_values(
                |x: DeferredDibl<T>| deferred_key(x),
            ) + jobs_replace_keys(self.jobs@.take(0)));
        }
        while j < self.jobs.len()
            invariant
                j <= self.jobs@.len(),
                i == self.summary.pending@.len(),
                np == self.summary.pending@.len(),
                input == self.summary.pending@.map_values(|x: DeferredDibl<T>| deferred_key(x))
                    + jobs_replace_keys(self.jobs@),
                done == np + jobs_replace_keys(self.jobs@.take(j as int)).len(),
                input.take(done) == self.summary.pending@.map_values(
                    |x: DeferredDibl<T>| deferred_key(x),
                ) + jobs_replace_keys(self.jobs@.take(j as int)),
                out@.map_values(|x: DeferredDibl<T>| deferred_key(x)) == stable_sort_by_first(
                    input.take(done),
                ),
                forall|k: int| 0 <= k < out@.len() ==> recovered_from(*self, #[trigger] out@[k]),
            decreases self.jobs@.len() - j,
        {
            let ops = &self.jobs[j].operations;
            let ghost before = jobs_replace_keys(self.jobs@.take(j as int));
            let ghost pkeys = self.summary.pending@.map_values(|x: DeferredDibl<T>| deferred_key(x));
            let mut q: usize = 0;
            proof {
                assert(ops@.take(0) =~= Seq::<DiblOperation<T>>::empty());
                assert(before + replace_keys(ops@.take(0)) =~= before);
            }
            while q < ops.len()
                invariant
                    q <= ops@.len(),
                    j < self.jobs@.len(),
                    ops@ == self.jobs@[j as int].operations@,
                    pkeys == self.summary.pending@.map_values(|x: DeferredDibl<T>| deferred_key(x)),
                    before == jobs_replace_keys(self.jobs@.take(j as int)),
                    input == pkeys + jobs_replace_keys(self.jobs@),
                    done == pkeys.len() + (before + replace_keys(ops@.take(q as int))).len(),
                    input.take(done) == pkeys + (before + replace_keys(ops@.take(q as int))),
                    out@.map_values(|x: DeferredDibl<T>| deferred_key(x)) == stable_sort_by_first(
                        input.take(done),
                    ),
                    forall|k: int| 0 <= k < out@.len() ==> recovered_from(*self, #[trigger] out@[k]),
                decreases ops@.len() - q,
            {
                proof {
                    lemma_replace_keys_prefix(ops@, q as int);
                    lemma_keys_prefix(self.jobs@, j as int, q + 1);
                    lemma_take_concat_prefix(
                        pkeys,
                        before + replace_keys(ops@.take(q + 1)),
                        jobs_replace_keys(self.jobs@),
                    );
                }
                match &ops[q] {
                    DiblOperation::Replace { ordinal, import } => {
                        let copy = DeferredDibl {
                            ordinal: *ordinal,
                            import: duplicate_import(import),
                            reason: PendingDiblReason::WorkerFailed,
                        };
                        proof {
                            assert(input.take(done + 1).drop_last() =~= input.take(done));
                            assert(input.take(done + 1) =~= pkeys + (before + replace_keys(
                                ops@.take(q + 1),
                            )));
                            assert(input.take(done + 1).last() == deferred_key(copy));
                        }
                        proof {
                            assert(self.jobs@[j as int].operations@[q as int] == ops@[q as int]);
                            assert(recovered_from(*self, copy));
                        }
                        let ghost prev = out@;
                        insert_by_ordinal(&mut out, copy);
                        proof {
                            lemma_insert_keeps_recovered(
                    *self,
                    prev,
                    out@,
                    copy,
                    count_first_le(prev.map_values(|x: DeferredDibl<T>| deferred_key(x)), copy.ordinal) as int,
                );
                            done = done + 1;
                        }
                    },
                    DiblOperation::Clear { .. } => {
                        proof {
                            assert(before + replace_keys(ops@.take(q + 1)) =~= before + replace_keys(
                                ops@.take(q as int),
                            ));
                        }
                    },
                }
                q = q + 1;
            }
            proof {
                assert(ops@.take(q as int) =~= ops@);
                assert(self.jobs@.take(j + 1).drop_last() =~= self.jobs@.take(j as int));
                assert(self.jobs@.take(j + 1).last() == self.jobs@[j as int]);
                assert(jobs_replace_keys(self.jobs@.take(j + 1)) =~= before + replace_keys(ops@));
            }
            j = j + 1;
        }
        proof {
            assert(self.jobs@.take(j as int) =~= self.jobs@);
            assert(input.take(done) =~= input);
        }
        DiblRefinementRecovery {
            purpose: self.purpose,
            mode: self.mode,
            pending: out,
            issues: copy_issues(&self.summary.issues),
        }
    }
}

proof fn lemma_replace_keys_prefix<T>(ops: Seq<DiblOperation<T>>, q: int)
    requires
        0 <= q < ops.len(),
    ensures
        replace_keys(ops.take(q + 1)) == replace_keys(ops.take(q)) + match ops[q] {
            DiblOperation::Replace { ordinal, import } => seq![
                (ordinal, (import.source, PendingDiblReason::WorkerFailed)),
            ],
            DiblOperation::Clear { .. } => Seq::<(usize, (DiblSource, PendingDiblReason))>::empty(),
        },
{
    assert(ops.take(q + 1).drop_last() =~= ops.take(q));
}

proof fn lemma_replace_keys_mono<T>(ops: Seq<DiblOperation<T>>, q: int)
    requires
        0 <= q <= ops.len(),
    ensures
        replace_keys(ops.take(q)).is_prefix_of(replace_keys(ops)),
    decreases ops.len() - q,
{
    if q == ops.len() {
        assert(ops.take(q) =~= ops);
        assert(replace_keys(ops) =~= replace_keys(ops).subrange(0, replace_keys(ops).len() as int));
    } else {
        lemma_replace_keys_mono(ops, q + 1);
        lemma_replace_keys_prefix(ops, q);
        let a = replace_keys(ops.take(q));
        let b = replace_keys(ops.take(q + 1));
        assert(a =~= b.subrange(0, a.len() as int));
        lemma_prefix_trans(a, b, replace_keys(ops));
    }
}

proof fn lemma_jobs_replace_keys_mono<D, T>(jobs: Seq<DiblJob<D, T>>, j: int)
    requires
        0 <= j <= jobs.len(),
    ensures
        jobs_replace_keys(jobs.take(j)).is_prefix_of(jobs_replace_keys(jobs)),
    decreases jobs.len() - j,
{
    if j == jobs.len() {
        assert(jobs.take(j) =~= jobs);
        assert(jobs_replace_keys(jobs) =~= jobs_replace_keys(jobs).subrange(
            0,
            jobs_replace_keys(jobs).len() as int,
        ));
    } else {
        lemma_jobs_replace_keys_mono(jobs, j + 1);
        assert(jobs.take(j + 1).drop_last() =~= jobs.take(j));
        let a = jobs_replace_keys(jobs.take(j));
        let b = jobs_replace_keys(jobs.take(j + 1));
        assert(a =~= b.subrange(0, a.len() as int));
        lemma_prefix_trans(a, b, jobs_replace_keys(jobs));
    }
}

/// The keys of the first `j` jobs and of the first `q` operations of job `j`
/// form a prefix of the keys of all jobs.
proof fn lemma_keys_prefix<D, T>(jobs: Seq<DiblJob<D, T>>, j: int, q: int)
    requires
        0 <= j < jobs.len(),
        0 <= q <= jobs[j].operations@.len(),
    ensures
        (jobs_replace_keys(jobs.take(j)) + replace_keys(jobs[j].operations@.take(q))).is_prefix_of(
            jobs_replace_keys(jobs),
        ),
{
    let ops = jobs[j].operations@;
    assert(jobs.take(j + 1).drop_last() =~= jobs.take(j));
    assert(jobs.take(j + 1).last() == jobs[j]);
    lemma_replace_keys_mono(ops, q);
    lemma_prefix_append(jobs_replace_keys(jobs.take(j)), replace_keys(ops.take(q)), replace_keys(ops));
    lemma_jobs_replace_keys_mono(jobs, j + 1);
    lemma_prefix_trans(
        jobs_replace_keys(jobs.take(j)) + replace_keys(ops.take(q)),
        jobs_replace_keys(jobs.take(j + 1)),
        jobs_replace_keys(jobs),
    );
}

fn copy_issues(issues: &Vec<DiblIssue>) -> (r: Vec<DiblIssue>)
    ensures
        issue_views(r@) == issue_views(issues@),
{
    let mut out: Vec<DiblIssue> = Vec::new();
    let mut i: usize = 0;
    while i < issues.len()
        invariant
            i <= issues@.len(),
            issue_views(out@) == issue_views(issues@.take(i as int)),
        decreases issues@.len() - i,
    {
        let x = DiblIssue { name: issues[i].name.clone(), message: issues[i].message.clone(), kind: issues[i].kind };
        proof {
            lemma_issue_views_push(out@, x);
            assert(issues@.take(i + 1) =~= issues@.take(i as int).push(issues@[i as int]));
            lemma_issue_views_push(issues@.take(i as int), issues@[i as int]);
        }
        out.push(x);
        i = i + 1;
    }
    proof {
        assert(issues@.take(i as int) =~= issues@);
    }
    out
}


pub open spec fn recovered_pending<T>(d: DeferredDibl<T>) -> PendingDibl<T> {
    import_pending(d.import, d.reason)
}

impl<D, C, T> ModelFitState<D, C, T> {
    /// Keeps every file of a failed worker pending and counts the pending rows
    /// that now stand for those files.
    pub fn recover_dibl_refinement(&mut self, recovery: DiblRefinementRecovery<T>) -> (r:
        DiblRecoveryReport)
        requires
            old(self).wf(),
        ensures
            final(self).wf(),
            final(self).dibls() == upserted_all(
                old(self).dibls(),
                recovery.pending@.map_values(|d: DeferredDibl<T>| recovered_pending(d)),
            ),
            r.recovered == count_named_by(
                final(self).dibls(),
                recovery.pending@.map_values(|d: DeferredDibl<T>| d.import.source@),
            ),
            r.purpose == recovery.purpose,
            r.mode == recovery.mode,
            r.issues == recovery.issues,
            final(self).rows() == old(self).rows(),
            final(self).outputs() == old(self).outputs(),
            final(self).selection() == old(self).selection(),
            final(self).model_index() == old(self).model_index(),
            final(self).next_id() == old(self).next_id(),
    {
        let DiblRefinementRecovery { purpose, mode, pending, issues } = recovery;
        let ghost all = pending@;
        let mut keys: Vec<Provenance> = Vec::new();
        let mut rest = pending;
        let ghost mut k: int = 0;
        proof {
            assert(all.take(0) =~= Seq::<DeferredDibl<T>>::empty());
        }
        while rest.len() > 0
            invariant
                self.wf(),
                0 <= k <= all.len(),
                rest@ =~= all.skip(k),
                keys@.map_values(|p: Provenance| p@) =~= all.take(k).map_values(
                    |d: DeferredDibl<T>| d.import.source@,
                ),
                self.dibls() == upserted_all(
                    old(self).dibls(),
                    all.take(k).map_values(|d: DeferredDibl<T>| recovered_pending(d)),
                ),
                self.rows() == old(self).rows(),
                self.outputs() == old(self).outputs(),
                self.selection() == old(self).selection(),
                self.model_index() == old(self).model_index(),
                self.next_id() == old(self).next_id(),
            decreases rest@.len(),
        {
            let d = rest.remove(0);
            proof {
                assert(d == all[k]);
                assert(all.take(k + 1) =~= all.take(k).push(all[k]));
                assert(all.take(k + 1).map_values(|d: DeferredDibl<T>| recovered_pending(d)).drop_last()
                    =~= all.take(k).map_values(|d: DeferredDibl<T>| recovered_pending(d)));
            }
            let DeferredDibl { ordinal: _, import, reason } = d;
            let DiblImport { source, second } = import;
            let ghost before = keys@;
            keys.push(source.provenance().duplicate());
            proof {
                assert(keys@.map_values(|p: Provenance| p@) =~= before.map_values(|p: Provenance| p@).push(
                    source@,
                ));
                assert(all.take(k + 1).map_values(|d: DeferredDibl<T>| d.import.source@) =~= all.take(
                    k,
                ).map_values(|d: DeferredDibl<T>| d.import.source@).push(source@));
            }
            self.add_pending_dibl(source, second, reason);
            proof {
                k = k + 1;
            }
        }
        proof {
            assert(all.take(k) =~= all);
        }
        let recovered = count_named(self.pending_dibls(), &keys);
        DiblRecoveryReport { purpose, mode, recovered, issues }
    }
}

// ---------------------------------------------------------------------------
// The worker's decisions
// ---------------------------------------------------------------------------


// ---------------------------------------------------------------------------
// The worker's decisions
// ---------------------------------------------------------------------------

/// Why the science library refused to detach a second transfer.
#[derive(Clone, Copy, Debug, PartialEq, Eq, Structural)]
pub enum DiblDetachRefusal {
    NoSecondTransfer,
    CannotRestoreLevel62Fit,
}

pub open spec fn dibl_detach_error_text(e: DiblDetachRefusal) -> Seq<char> {
    match e {
        DiblDetachRefusal::NoSecondTransfer => NO_SECOND_TRANSFER_MESSAGE@,
        DiblDetachRefusal::CannotRestoreLevel62Fit => LEVEL62_RESTORE_MESSAGE@,
    }
}

/// The issue text for a refused detach.
pub fn dibl_detach_error_message(e: DiblDetachRefusal) -> (r: String)
    ensures
        r@ == dibl_detach_error_text(e),
{
    match e {
        DiblDetachRefusal::NoSecondTransfer => owned(NO_SECOND_TRANSFER_MESSAGE),
        DiblDetachRefusal::CannotRestoreLevel62Fit => owned(LEVEL62_RESTORE_MESSAGE),
    }
}

/// The worker's progress through one job. The science library's calls are
/// made by the caller, who hands each reply to one of the methods below.
pub struct DiblJobRun<D, T, A> {
    pub token: DeviceToken,
    pub device_name: String,
    pub science: DeviceScience<D>,
    pub operations: Vec<DiblOperationResult<T, A>>,
    pub clear_pending: Option<PendingDibl<T>>,
    pub changed: bool,
    pub clear_error: Option<String>,
    /// The ordinal of the import that last attached a second transfer in this job.
    pub current_generation: Option<usize>,
}

/// What an accepted fit displaced: the previous source when it names another
/// file, with the second transfer the library handed back, ranked by the
/// generation current in the job.
pub open spec fn displaced_of<T>(
    previous: Option<DiblSource>,
    incoming: DiblSource,
    generation: Option<usize>,
    second: Option<T>,
) -> Option<RankedPendingDibl<T>> {
    match (previous, second) {
        (Some(o), Some(s)) => if same_named(o@, incoming@) {
            None
        } else {
            Some(
                RankedPendingDibl {
                    generation,
                    pending: PendingDibl { source: o, second: s, reason: PendingDiblReason::Detached },
                },
            )
        },
        _ => None,
    }
}

impl<D, T, A> DiblJobRun<D, T, A> {
    /// Starts a job: nothing done yet; the operations come back to be run.
    pub fn start(job: DiblJob<D, T>) -> (r: (Self, Vec<DiblOperation<T>>))
        ensures
            r.0.token == job.token,
            r.0.device_name == job.device_name,
            r.0.science == job.science,
            r.0.operations@.len() == 0,
            r.0.clear_pending is None,
            !r.0.changed,
            r.0.clear_error is None,
            r.0.current_generation is None,
            r.1 == job.operations,
    {
        let DiblJob { token, device_name, science, operations } = job;
        (
            DiblJobRun {
                token,
                device_name,
                science,
                operations: Vec::new(),
                clear_pending: None,
                changed: false,
                clear_error: None,
                current_generation: None,
            },
            operations,
        )
    }

    /// The library fitted DIBL with `import`: `device` is the device after
    /// the replacement, `at` the fitted value, `second_vds` the drain bias of
    /// the second transfer, and `displaced_second` the second transfer it
    /// replaced (present exactly when one was attached).
    pub fn replace_fitted(
        self,
        ordinal: usize,
        import: DiblImport<T>,
        device: D,
        at: A,
        second_vds: A,
        displaced_second: Option<T>,
    ) -> (r: Self)
        requires
            self.science.wf(),
            (self.science.dibl_src() is Some) == (displaced_second is Some),
        ensures
            r.science.wf(),
            r.science.device_spec() == device,
            r.science.name() == self.science.name(),
            r.science.stem() == self.science.stem(),
            r.science.has_output() == self.science.has_output(),
            r.science.has_second(),
            r.science.primary() == self.science.primary(),
            r.science.output_src() == self.science.output_src(),
            r.science.dibl_src() == Some(import.source),
            r.operations@ == self.operations@.push(
                DiblOperationResult::Fitted {
                    ordinal,
                    import,
                    at,
                    second_vds,
                    displaced: displaced_of(
                        self.science.dibl_src(),
                        import.source,
                        self.current_generation,
                        displaced_second,
                    ),
                },
            ),
            r.current_generation == Some(ordinal),
            r.changed,
            r.token == self.token,
            r.device_name == self.device_name,
            r.clear_pending == self.clear_pending,
            r.clear_error == self.clear_error,
    {
        let DiblJobRun {
            token,
            device_name,
            science,
            mut operations,
            clear_pending,
            changed: _,
            clear_error,
            current_generation,
        } = self;
        let (science, previous) = science.with_second_replaced(import.source.duplicate(), device);
        let displaced = match (previous, displaced_second) {
            (Some(source), Some(second)) => Some(
                RankedPendingDibl {
                    generation: current_generation,
                    pending: PendingDibl { source, second, reason: PendingDiblReason::Detached },
                },
            ),
            _ => None,
        };
        operations.push(DiblOperationResult::Fitted { ordinal, import, at, second_vds, displaced });
        DiblJobRun {
            token,
            device_name,
            science,
            operations,
            clear_pending,
            changed: true,
            clear_error,
            current_generation: Some(ordinal),
        }
    }

    /// The library could not fit DIBL with `import`, which carries the second
    /// transfer it handed back; `message` says why.
    pub fn replace_no_fit(self, ordinal: usize, import: DiblImport<T>, message: String) -> (r: Self)
        ensures
            r.operations@ == self.operations@.push(
                DiblOperationResult::NoFit { ordinal, import, message },
            ),
            r.science == self.science,
            r.current_generation == self.current_generation,
            r.changed == self.changed,
            r.token == self.token,
            r.device_name == self.device_name,
            r.clear_pending == self.clear_pending,
            r.clear_error == self.clear_error,
    {
        let mut run = self;
        run.operations.push(DiblOperationResult::NoFit { ordinal, import, message });
        run
    }

    /// The library detached the second transfer: `device` is the device
    /// without it and `second` the detached measurement, kept pending when asked.
    pub fn clear_applied(self, keep_pending: bool, device: D, second: T) -> (r: Self)
        requires
            self.science.wf(),
            self.science.has_second(),
        ensures
            r.science.wf(),
            r.science.device_spec() == device,
            r.science.name() == self.science.name(),
            r.science.stem() == self.science.stem(),
            r.science.has_output() == self.science.has_output(),
            !r.science.has_second(),
            r.science.primary() == self.science.primary(),
            r.science.output_src() == self.science.output_src(),
            r.science.dibl_src() is None,
            r.clear_pending == if keep_pending {
                Some(
                    PendingDibl {
                        source: self.science.dibl_src().unwrap(),
                        second,
                        reason: PendingDiblReason::Detached,
                    },
                )
            } else {
                self.clear_pending
            },
            r.changed,
            r.operations == self.operations,
            r.current_generation == self.current_generation,
            r.token == self.token,
            r.device_name == self.device_name,
            r.clear_error == self.clear_error,
    {
        let DiblJobRun {
            token,
            device_name,
            science,
            operations,
            clear_pending,
            changed: _,
            clear_error,
            current_generation,
        } = self;
        let (science, source) = science.with_second_detached(device);
        let clear_pending = if keep_pending {
            Some(PendingDibl { source, second, reason: PendingDiblReason::Detached })
        } else {
            clear_pending
        };
        DiblJobRun {
            token,
            device_name,
            science,
            operations,
            clear_pending,
            changed: true,
            clear_error,
            current_generation,
        }
    }

    /// The library refused the detach; the job reports it at commit.
    pub fn clear_refused(self, refusal: DiblDetachRefusal) -> (r: Self)
        ensures
            r.clear_error matches Some(m) && m@ == dibl_detach_error_text(refusal),
            r.science == self.science,
            r.operations == self.operations,
            r.clear_pending == self.clear_pending,
            r.changed == self.changed,
            r.current_generation == self.current_generation,
            r.token == self.token,
            r.device_name == self.device_name,
    {
        let mut run = self;
        run.clear_error = Some(dibl_detach_error_message(refusal));
        run
    }

    /// The job's result.
    pub fn finish(self) -> (r: DiblJobResult<D, T, A>)
        ensures
            r.token == self.token,
            r.device_name == self.device_name,
            r.science == self.science,
            r.operations == self.operations,
            r.clear_pending == self.clear_pending,
            r.changed == self.changed,
            r.clear_error == self.clear_error,
    {
        DiblJobResult {
            token: self.token,
            device_name: self.device_name,
            science: self.science,
            operations: self.operations,
            clear_pending: self.clear_pending,
            changed: self.changed,
            clear_error: self.clear_error,
        }
    }
}

// ---------------------------------------------------------------------------
// Laws of the guarded commit
// ---------------------------------------------------------------------------

/// A result whose every job finds its row gone or changed changes no row,
/// attaches nothing, reports no success, and keeps every file it carried
/// pending as "device changed".
pub proof fn law_stale_results_change_no_row<D, T, A>(rows: Seq<DeviceEntry<D>>, jobs: Seq<DiblJobResult<D, T, A>>)
    requires
        forall|j: int| 0 <= j < jobs.len() ==> !token_live(rows, (#[trigger] jobs[j]).token),
    ensures
        rows_after_jobs(rows, jobs) == rows,
        !jobs_succeeded(rows, jobs),
        jobs_fits(rows, jobs).len() == 0,
        forall|k: int|
            0 <= k < jobs_effects(rows, jobs).len() ==> (#[trigger] jobs_effects(rows, jobs)[k] matches PendingEffect::FreshPending { pending, .. } && pending.reason == PendingDiblReason::DeviceChanged),
    decreases jobs.len(),
{
    if jobs.len() > 0 {
        let prev = jobs.drop_last();
        assert forall|j: int| 0 <= j < prev.len() implies !token_live(rows, (#[trigger] prev[j]).token) by {
            assert(prev[j] == jobs[j]);
        }
        law_stale_results_change_no_row(rows, prev);
        let job = jobs.last();
        assert(!token_live(rows, job.token));
        let e = job.operations@.map_values(|op: DiblOperationResult<T, A>| stale_effect(op));
        let before = jobs_effects(rows, prev);
        assert forall|k: int| 0 <= k < jobs_effects(rows, jobs).len() implies (#[trigger] jobs_effects(rows, jobs)[k] matches PendingEffect::FreshPending { pending, .. } && pending.reason == PendingDiblReason::DeviceChanged) by {
            if k >= before.len() {
                assert(jobs_effects(rows, jobs)[k] == e[k - before.len()]);
            } else {
                assert(jobs_effects(rows, jobs)[k] == before[k]);
            }
        }
    }
}

/// A commit touches no row whose identity no job names.
pub proof fn law_commit_keeps_unnamed_rows<D, T, A>(rows: Seq<DeviceEntry<D>>, jobs: Seq<DiblJobResult<D, T, A>>, i: int)
    requires
        0 <= i < rows.len(),
        forall|j: int| 0 <= j < jobs.len() ==> (#[trigger] jobs[j]).token.id_val() != rows[i].id_val(),
    ensures
        rows_after_jobs(rows, jobs).len() == rows.len(),
        rows_after_jobs(rows, jobs)[i] == rows[i],
    decreases jobs.len(),
{
    if jobs.len() > 0 {
        let prev_jobs = jobs.drop_last();
        assert forall|j: int| 0 <= j < prev_jobs.len() implies (#[trigger] prev_jobs[j]).token.id_val() != rows[i].id_val() by {
            assert(prev_jobs[j] == jobs[j]);
        }
        law_commit_keeps_unnamed_rows(rows, prev_jobs, i);
        let prev = rows_after_jobs(rows, prev_jobs);
        let job = jobs.last();
        if job_applies(prev, job) && job.changed {
            let w = live_index(prev, job.token);
            assert(prev[w].id_val() == job.token.id_val());
            prev[w].lemma_with_science_keeps_identity(job.science);
            assert(w != i);
        }
    }
}

/// Where a live job's operation leaves its file: a fitted file is recorded
/// as attached, a file the library could not fit stays pending as "no fit".
pub open spec fn op_landing<T, A>(op: DiblOperationResult<T, A>) -> DiblEffect<T> {
    match op {
        DiblOperationResult::Fitted { ordinal, import, .. } => PendingEffect::FreshClear {
            ordinal,
            source: import.source,
        },
        DiblOperationResult::NoFit { ordinal, import, .. } => PendingEffect::FreshPending {
            ordinal,
            pending: import_pending(import, PendingDiblReason::NoFit),
        },
    }
}

/// The rows before job `j` of `jobs` is committed.
pub open spec fn rows_before<D, T, A>(rows: Seq<DeviceEntry<D>>, jobs: Seq<DiblJobResult<D, T, A>>, j: int) -> Seq<
    DeviceEntry<D>,
> {
    rows_after_jobs(rows, jobs.take(j))
}

/// Job `j` of `jobs` commits: it finds its row unchanged, carries no clear
/// error, and changed its device.
pub open spec fn job_commits<D, T, A>(rows: Seq<DeviceEntry<D>>, jobs: Seq<DiblJobResult<D, T, A>>, j: int) -> bool {
    job_applies(rows_before(rows, jobs, j), jobs[j]) && jobs[j].changed
}

proof fn lemma_ops_landing<T, A>(ops: Seq<DiblOperationResult<T, A>>, k: int)
    requires
        0 <= k < ops.len(),
    ensures
        ops_effects(ops).contains(op_landing(ops[k])),
    decreases ops.len(),
{
    let prev = ops_effects(ops.drop_last());
    let last = op_effects(ops.last());
    assert(ops_effects(ops) == prev + last);
    if k == ops.len() - 1 {
        assert(last[0] == op_landing(ops[k]));
        assert((prev + last)[prev.len() as int] == last[0]);
    } else {
        assert(ops.drop_last()[k] == ops[k]);
        lemma_ops_landing(ops.drop_last(), k);
        let m = choose|m: int| 0 <= m < prev.len() && prev[m] == op_landing(ops[k]);
        assert((prev + last)[m] == prev[m]);
    }
}

/// The effects and issues of the first `m` jobs begin those of all jobs.
proof fn lemma_jobs_prefix<D, T, A>(rows: Seq<DeviceEntry<D>>, jobs: Seq<DiblJobResult<D, T, A>>, m: int)
    requires
        0 <= m <= jobs.len(),
    ensures
        jobs_effects(rows, jobs.take(m)).is_prefix_of(jobs_effects(rows, jobs)),
        jobs_issues(rows, jobs.take(m)).is_prefix_of(jobs_issues(rows, jobs)),
    decreases jobs.len(),
{
    if m == jobs.len() {
        assert(jobs.take(m) =~= jobs);
    } else {
        let p = jobs.drop_last();
        assert(p.take(m) =~= jobs.take(m));
        lemma_jobs_prefix(rows, p, m);
        let ep = jobs_effects(rows, p);
        let ip = jobs_issues(rows, p);
        let el = job_effects(rows_after_jobs(rows, p), jobs.last());
        let il = job_issues(rows_after_jobs(rows, p), jobs.last());
        assert(ep =~= (ep + el).subrange(0, ep.len() as int));
        assert(ip =~= (ip + il).subrange(0, ip.len() as int));
        lemma_prefix_trans(jobs_effects(rows, jobs.take(m)), ep, ep + el);
        lemma_prefix_trans(jobs_issues(rows, jobs.take(m)), ip, ip + il);
    }
}

/// The whole-result law of the DIBL commit, job by job. Jobs commit in
/// order, each against the rows the earlier ones left. A job whose row is
/// gone or was edited changes no row, and keeps each of its files pending as
/// "device changed" with one stale issue per file (one for the device when
/// it has none). A job whose row is live changes that row alone: the row
/// keeps its identity, place and checkbox, and its revision advances by one
/// exactly when the job changed the device and carries no clear error. A
/// live job without a clear error drops none of its files: each fitted file
/// is recorded as attached and each file the library could not fit stays
/// pending. The job's effects and issues stand, in order, in the commit's
/// effects and issues.
pub proof fn law_dibl_commit_by_job<D, T, A>(rows: Seq<DeviceEntry<D>>, jobs: Seq<DiblJobResult<D, T, A>>, j: int)
    requires
        0 <= j < jobs.len(),
        forall|i: int| 0 <= i < rows.len() ==> #[trigger] rows[i].revision_val() + jobs.len() <= u64::MAX,
    ensures
        ({
            let prev = rows_before(rows, jobs, j);
            let next = rows_before(rows, jobs, j + 1);
            let job = jobs[j];
            let ops = job.operations@;
            let e0 = jobs_effects(rows, jobs.take(j)).len() as int;
            let i0 = jobs_issues(rows, jobs.take(j)).len() as int;
            &&& next.len() == prev.len()
            &&& e0 + job_effects(prev, job).len() <= jobs_effects(rows, jobs).len()
            &&& i0 + job_issues(prev, job).len() <= jobs_issues(rows, jobs).len()
            &&& jobs_effects(rows, jobs).subrange(e0, e0 + job_effects(prev, job).len()) == job_effects(prev, job)
            &&& jobs_issues(rows, jobs).subrange(i0, i0 + job_issues(prev, job).len()) == job_issues(prev, job)
            &&& !token_live(prev, job.token) ==> {
                &&& next == prev
                &&& job_effects(prev, job).len() == ops.len()
                &&& forall|k: int|
                    0 <= k < ops.len() ==> #[trigger] job_effects(prev, job)[k] == PendingEffect::<DiblSource, PendingDibl<T>>::FreshPending {
                        ordinal: op_ordinal(ops[k]),
                        pending: import_pending(op_import(ops[k]), PendingDiblReason::DeviceChanged),
                    }
                &&& ops.len() == 0 ==> job_issues(prev, job) == seq![(job.device_name@, DIBL_STALE_MESSAGE@, DiblIssueKind::Stale)]
                &&& ops.len() > 0 ==> job_issues(prev, job).len() == ops.len() && forall|k: int|
                    0 <= k < ops.len() ==> #[trigger] job_issues(prev, job)[k] == (
                        op_import(ops[k]).source@.name,
                        DIBL_STALE_MESSAGE@,
                        DiblIssueKind::Stale,
                    )
            }
            &&& token_live(prev, job.token) ==> {
                let w = live_index(prev, job.token);
                &&& 0 <= w < prev.len()
                &&& forall|i: int| 0 <= i < prev.len() && i != w ==> #[trigger] next[i] == prev[i]
                &&& next[w].id_val() == prev[w].id_val()
                &&& next[w].checked_val() == prev[w].checked_val()
                &&& next[w].revision_val() == prev[w].revision_val() + if job.changed && job.clear_error is None {
                    1int
                } else {
                    0int
                }
                &&& job.clear_error is None ==> forall|k: int|
                    0 <= k < ops.len() ==> job_effects(prev, job).contains(op_landing(#[trigger] ops[k]))
            }
        }),
{
    let prev = rows_before(rows, jobs, j);
    let job = jobs[j];
    let ops = job.operations@;
    let t = jobs.take(j + 1);
    assert(t.drop_last() =~= jobs.take(j));
    assert(t.last() == job);
    lemma_rows_after_jobs(rows, jobs.take(j));
    lemma_jobs_prefix(rows, jobs, j + 1);
    let ej = jobs_effects(rows, jobs.take(j));
    let ij = jobs_issues(rows, jobs.take(j));
    let je = job_effects(prev, job);
    let ji = job_issues(prev, job);
    assert(jobs_effects(rows, t) == ej + je);
    assert(jobs_issues(rows, t) == ij + ji);
    let all_e = jobs_effects(rows, jobs);
    let all_i = jobs_issues(rows, jobs);
    assert((ej + je).is_prefix_of(all_e));
    assert((ij + ji).is_prefix_of(all_i));
    assert(ej + je == all_e.subrange(0, (ej + je).len() as int));
    assert(ij + ji == all_i.subrange(0, (ij + ji).len() as int));
    assert(all_e.subrange(ej.len() as int, (ej.len() + je.len()) as int) =~= je) by {
        assert forall|k: int| 0 <= k < je.len() implies #[trigger] all_e.subrange(ej.len() as int, (ej.len() + je.len()) as int)[k] == je[k] by {
            assert((ej + je)[ej.len() + k] == je[k]);
            assert(all_e.subrange(0, (ej + je).len() as int)[ej.len() + k] == all_e[ej.len() + k]);
        }
    }
    assert(all_i.subrange(ij.len() as int, (ij.len() + ji.len()) as int) =~= ji) by {
        assert forall|k: int| 0 <= k < ji.len() implies #[trigger] all_i.subrange(ij.len() as int, (ij.len() + ji.len()) as int)[k] == ji[k] by {
            assert((ij + ji)[ij.len() + k] == ji[k]);
            assert(all_i.subrange(0, (ij + ji).len() as int)[ij.len() + k] == all_i[ij.len() + k]);
        }
    }
    if token_live(prev, job.token) {
        let w = live_index(prev, job.token);
        assert(0 <= w < prev.len());
        assert(prev[w].revision_val() + 1 <= u64::MAX) by {
            assert(prev[w].revision_val() <= rows[w].revision_val() + j);
        }
        prev[w].lemma_with_science(job.science);
        if job.clear_error is None {
            assert forall|k: int| 0 <= k < ops.len() implies je.contains(op_landing(#[trigger] ops[k])) by {
                lemma_ops_landing(ops, k);
                let m = choose|m: int| 0 <= m < ops_effects(ops).len() && ops_effects(ops)[m] == op_landing(ops[k]);
                assert(je[m] == ops_effects(ops)[m]);
            }
        }
    }
}

/// A DIBL commit reports success exactly when some job commits.
pub proof fn law_dibl_success_iff_some_job_commits<D, T, A>(rows: Seq<DeviceEntry<D>>, jobs: Seq<DiblJobResult<D, T, A>>)
    ensures
        jobs_succeeded(rows, jobs) <==> exists|j: int| 0 <= j < jobs.len() && #[trigger] job_commits(rows, jobs, j),
    decreases jobs.len(),
{
    if jobs.len() > 0 {
        let p = jobs.drop_last();
        law_dibl_success_iff_some_job_commits(rows, p);
        let n = jobs.len() - 1;
        assert(jobs.take(n) =~= p);
        if job_applies(rows_after_jobs(rows, p), jobs.last()) && jobs.last().changed {
            assert(job_commits(rows, jobs, n));
        }
        if jobs_succeeded(rows, p) {
            let j = choose|j: int| 0 <= j < p.len() && #[trigger] job_commits(rows, p, j);
            assert(p.take(j) =~= jobs.take(j));
            assert(job_commits(rows, jobs, j));
        }
        if exists|j: int| 0 <= j < jobs.len() && #[trigger] job_commits(rows, jobs, j) {
            let j = choose|j: int| 0 <= j < jobs.len() && #[trigger] job_commits(rows, jobs, j);
            if j < n {
                assert(p.take(j) =~= jobs.take(j));
                assert(job_commits(rows, p, j));
            }
        }
    }
}

/// A DIBL commit keeps the number, order, identities and checkboxes of the
/// rows.
pub proof fn law_dibl_commit_keeps_row_identities<D, T, A>(rows: Seq<DeviceEntry<D>>, jobs: Seq<DiblJobResult<D, T, A>>)
    ensures
        rows_after_jobs(rows, jobs).len() == rows.len(),
        forall|i: int|
            0 <= i < rows.len() ==> (#[trigger] rows_after_jobs(rows, jobs)[i]).id_val() == rows[i].id_val()
                && rows_after_jobs(rows, jobs)[i].checked_val() == rows[i].checked_val(),
    decreases jobs.len(),
{
    if jobs.len() > 0 {
        let prev = rows_after_jobs(rows, jobs.drop_last());
        law_dibl_commit_keeps_row_identities(rows, jobs.drop_last());
        let job = jobs.last();
        if job_applies(prev, job) && job.changed {
            let w = live_index(prev, job.token);
            assert(0 <= w < prev.len());
            prev[w].lemma_with_science_keeps_identity(job.science);
        }
    }
}

/// The effects a DIBL commit applies to the pending list: the files the
/// planner deferred, then each job's effects in order.
pub open spec fn commit_effects<D, T, A>(
    rows: Seq<DeviceEntry<D>>,
    deferred: Seq<DeferredDibl<T>>,
    jobs: Seq<DiblJobResult<D, T, A>>,
) -> Seq<DiblEffect<T>> {
    deferred.map_values(|d: DeferredDibl<T>| deferred_effect(d)) + jobs_effects(rows, jobs)
}

/// A DIBL commit drops no import. Each file of job `j` either is attached
/// (a fitted file of a live job) or stays in the pending list afterwards (as
/// "device changed" when the job's row is gone or was edited, as "no fit"
/// when the library could not fit it), unless another import or attachment
/// of the same commit names that file.
pub proof fn law_dibl_commit_drops_no_import<D, T, A>(
    rows: Seq<DeviceEntry<D>>,
    pending: Seq<PendingDibl<T>>,
    deferred: Seq<DeferredDibl<T>>,
    jobs: Seq<DiblJobResult<D, T, A>>,
    j: int,
    k: int,
)
    requires
        0 <= j < jobs.len(),
        0 <= k < jobs[j].operations@.len(),
        forall|i: int| 0 <= i < rows.len() ==> #[trigger] rows[i].revision_val() + jobs.len() <= u64::MAX,
    ensures
        ({
            let effects = commit_effects(rows, deferred, jobs);
            let after = pending_after(pending, effects);
            let prev = rows_before(rows, jobs, j);
            let op = jobs[j].operations@[k];
            &&& !token_live(prev, jobs[j].token) ==> kept_or_named_again(after, effects, stale_effect(op))
            &&& token_live(prev, jobs[j].token) && jobs[j].clear_error is None ==> {
                &&& op is Fitted ==> effects.contains(op_landing(op))
                &&& op is NoFit ==> kept_or_named_again(after, effects, op_landing(op))
            }
        }),
{
    let effects = commit_effects(rows, deferred, jobs);
    let dv = deferred.map_values(|d: DeferredDibl<T>| deferred_effect(d));
    let all = jobs_effects(rows, jobs);
    let prev = rows_before(rows, jobs, j);
    let job = jobs[j];
    let op = job.operations@[k];
    let je = job_effects(prev, job);
    let e0 = jobs_effects(rows, jobs.take(j)).len() as int;
    law_dibl_commit_by_job(rows, jobs, j);
    assert(all.subrange(e0, e0 + je.len()) == je);
    let target = if !token_live(prev, job.token) {
        stale_effect(op)
    } else {
        op_landing(op)
    };
    if !token_live(prev, job.token) || job.clear_error is None {
        let m: int = if !token_live(prev, job.token) {
            assert(je[k] == stale_effect(op));
            k
        } else {
            let m = choose|m: int| 0 <= m < je.len() && je[m] == op_landing(op);
            m
        };
        assert(je[m] == target);
        assert(all.subrange(e0, e0 + je.len())[m] == all[e0 + m]);
        assert(all[e0 + m] == target);
        assert(effects[dv.len() + e0 + m] == target);
        if !token_live(prev, job.token) || op is NoFit {
            law_kept_pending_rows_survive(pending, effects, dv.len() + e0 + m);
        } else {
            assert(effects.contains(target));
        }
    }
}

} // verus!

