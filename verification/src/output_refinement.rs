//! Output measurements of the Model Fit page: which device each imported file
//! goes to, the decisions the worker takes around the science library's
//! replacement, and the commit that applies a finished result only to rows
//! whose identity and scientific revision are still those the plan captured.

use vstd::prelude::*;
use crate::modelfit::{
    token_live, live_index, DeviceEntry, DeviceScience, DeviceToken, ModelFitState, PendingOutput,
    PendingOutputReason,
};
use crate::pending::{
    add_to_group, count_first_le, count_named, count_named_by, lemma_prefix_append,
    lemma_prefix_trans, lemma_take_concat_prefix, pending_after, stable_sort_by_first,
    upserted_all, PendingEffect,
};
use crate::source::{
    opt_view, same_named, visible_name, visible_source_name, OutputSource, Provenance, ProvenanceView,
};
use crate::pairing::{device_base, device_base_name};
use crate::text::{is_blank, owned, str_eq, str_is_blank};

verus! {

/// Issue text for a file whose device changed before the result came back.
pub const OUTPUT_STALE_MESSAGE: &'static str =
    "The device changed before these output curves were applied; they are kept pending.";

/// Issue text for output curves the retained DIBL measurement does not admit.
pub const OUTPUT_DIBL_CONFLICT_MESSAGE: &'static str =
    "These output curves conflict with the attached DIBL measurement; they are kept pending.";

/// Issue text for a detach the retained DIBL measurement does not admit.
pub const OUTPUT_CLEAR_DIBL_CONFLICT_MESSAGE: &'static str =
    "The output cannot be detached while the attached DIBL measurement depends on it.";

/// Issue text for a detach of a device without output curves.
pub const NO_OUTPUT_ATTACHED_MESSAGE: &'static str = "No output is attached.";

/// One imported output file: its provenance and its curves.
pub struct OutputImport<C> {
    pub source: OutputSource,
    pub curves: C,
}

#[derive(Clone, Copy, Debug, PartialEq, Eq, Structural)]
pub enum OutputRefinementPurpose {
    Import,
    AttachPending,
    Detach,
    Remove,
}

/// A message about one file or device, for the issue list.
pub struct OutputIssue {
    pub name: String,
    pub message: String,
    pub persist: bool,
}

impl View for OutputIssue {
    type V = (Seq<char>, Seq<char>, bool);

    open spec fn view(&self) -> (Seq<char>, Seq<char>, bool) {
        (self.name@, self.message@, self.persist)
    }
}

pub open spec fn issue_views(s: Seq<OutputIssue>) -> Seq<(Seq<char>, Seq<char>, bool)> {
    s.map_values(|i: OutputIssue| i@)
}

/// An imported file that waits as pending, with its place in the dialog.
pub struct DeferredOutput<C> {
    pub ordinal: usize,
    pub import: OutputImport<C>,
    pub reason: PendingOutputReason,
}

/// What planning decided without a device: counts and deferred files.
pub struct OutputImportSummary<C> {
    pub unmatched: usize,
    pub ambiguous: usize,
    pub pending: Vec<DeferredOutput<C>>,
    pub parse_issues: Vec<OutputIssue>,
}

/// A displaced attachment, with the generation of the import that displaced
/// it when that import belongs to the same job.
pub struct RankedPendingOutput<C> {
    pub generation: Option<usize>,
    pub pending: PendingOutput<C>,
}

/// What the worker made of one operation.
pub enum OutputOperationResult<C> {
    /// The curves were attached; `no_fit` when they gave no output fit.
    Applied {
        ordinal: usize,
        import: OutputImport<C>,
        no_fit: bool,
        displaced: Option<RankedPendingOutput<C>>,
    },
    /// The retained DIBL measurement refused the curves.
    DiblConflict { ordinal: usize, import: OutputImport<C> },
}

/// The worker's result for one device.
pub struct OutputJobResult<D, C> {
    pub token: DeviceToken,
    pub device_name: String,
    pub science: DeviceScience<D>,
    pub operations: Vec<OutputOperationResult<C>>,
    pub clear_pending: Option<PendingOutput<C>>,
    pub changed: bool,
    pub clear_error: Option<String>,
}

pub struct OutputRefinementResult<D, C> {
    pub purpose: OutputRefinementPurpose,
    pub summary: OutputImportSummary<C>,
    pub jobs: Vec<OutputJobResult<D, C>>,
}

/// What one commit did, for the user.
pub struct OutputCommitReport {
    pub purpose: OutputRefinementPurpose,
    pub attached: usize,
    pub unfittable: usize,
    pub unmatched: usize,
    pub ambiguous: usize,
    pub displaced: usize,
    pub issues: Vec<OutputIssue>,
    pub action_succeeded: bool,
}

pub type OutputEffect<C> = PendingEffect<OutputSource, PendingOutput<C>>;

// ---------------------------------------------------------------------------
// What a commit does
// ---------------------------------------------------------------------------

pub open spec fn import_pending<C>(import: OutputImport<C>, reason: PendingOutputReason) -> PendingOutput<C> {
    PendingOutput { source: import.source, curves: import.curves, reason }
}

pub open spec fn op_ordinal<C>(op: OutputOperationResult<C>) -> usize {
    match op {
        OutputOperationResult::Applied { ordinal, .. } => ordinal,
        OutputOperationResult::DiblConflict { ordinal, .. } => ordinal,
    }
}

pub open spec fn op_import<C>(op: OutputOperationResult<C>) -> OutputImport<C> {
    match op {
        OutputOperationResult::Applied { import, .. } => import,
        OutputOperationResult::DiblConflict { import, .. } => import,
    }
}

/// A stale job's files stay pending as "device changed".
pub open spec fn stale_effect<C>(op: OutputOperationResult<C>) -> OutputEffect<C> {
    PendingEffect::FreshPending {
        ordinal: op_ordinal(op),
        pending: import_pending(op_import(op), PendingOutputReason::DeviceChanged),
    }
}

/// A displaced attachment returns in its displacer's generation, or, when it
/// was attached before the command, by the displacer's ordinal.
pub open spec fn displaced_effect<C>(ordinal: usize, d: RankedPendingOutput<C>) -> OutputEffect<C> {
    match d.generation {
        Some(g) => PendingEffect::FreshPending { ordinal: g, pending: d.pending },
        None => PendingEffect::PreCommandDisplacement { ordinal, pending: d.pending },
    }
}

pub open spec fn op_effects<C>(op: OutputOperationResult<C>) -> Seq<OutputEffect<C>> {
    match op {
        OutputOperationResult::Applied { ordinal, import, displaced, .. } => seq![
            PendingEffect::FreshClear { ordinal, source: import.source },
        ] + match displaced {
            Some(d) => seq![displaced_effect(ordinal, d)],
            None => Seq::empty(),
        },
        OutputOperationResult::DiblConflict { ordinal, import } => seq![
            PendingEffect::FreshPending {
                ordinal,
                pending: import_pending(import, PendingOutputReason::DiblConflict),
            },
        ],
    }
}

pub open spec fn ops_effects<C>(ops: Seq<OutputOperationResult<C>>) -> Seq<OutputEffect<C>>
    decreases ops.len(),
{
    if ops.len() == 0 {
        Seq::empty()
    } else {
        ops_effects(ops.drop_last()) + op_effects(ops.last())
    }
}

pub open spec fn detach_effects<C>(p: Option<PendingOutput<C>>) -> Seq<OutputEffect<C>> {
    match p {
        Some(p) => seq![PendingEffect::CurrentDetach(p)],
        None => Seq::empty(),
    }
}

/// The job finds its row unchanged and carries no clear error.
pub open spec fn job_applies<D, C>(rows: Seq<DeviceEntry<D>>, job: OutputJobResult<D, C>) -> bool {
    token_live(rows, job.token) && job.clear_error is None
}

pub open spec fn job_effects<D, C>(rows: Seq<DeviceEntry<D>>, job: OutputJobResult<D, C>) -> Seq<
    OutputEffect<C>,
> {
    if !token_live(rows, job.token) {
        job.operations@.map_values(|op: OutputOperationResult<C>| stale_effect(op))
    } else if job.clear_error is Some {
        Seq::empty()
    } else {
        ops_effects(job.operations@) + detach_effects(job.clear_pending)
    }
}

pub open spec fn stale_issue<C>(op: OutputOperationResult<C>) -> (Seq<char>, Seq<char>, bool) {
    (op_import(op).source@.name, OUTPUT_STALE_MESSAGE@, false)
}

pub open spec fn conflict_issues<C>(ops: Seq<OutputOperationResult<C>>) -> Seq<
    (Seq<char>, Seq<char>, bool),
>
    decreases ops.len(),
{
    if ops.len() == 0 {
        Seq::empty()
    } else {
        conflict_issues(ops.drop_last()) + match ops.last() {
            OutputOperationResult::DiblConflict { import, .. } => seq![
                (import.source@.name, OUTPUT_DIBL_CONFLICT_MESSAGE@, false),
            ],
            _ => Seq::empty(),
        }
    }
}

pub open spec fn job_issues<D, C>(rows: Seq<DeviceEntry<D>>, job: OutputJobResult<D, C>) -> Seq<
    (Seq<char>, Seq<char>, bool),
> {
    if !token_live(rows, job.token) {
        if job.operations@.len() == 0 {
            seq![(job.device_name@, OUTPUT_STALE_MESSAGE@, false)]
        } else {
            job.operations@.map_values(|op: OutputOperationResult<C>| stale_issue(op))
        }
    } else {
        match job.clear_error {
            Some(m) => seq![(job.device_name@, m@, false)],
            None => conflict_issues(job.operations@),
        }
    }
}

pub open spec fn applied_count<C>(ops: Seq<OutputOperationResult<C>>) -> nat
    decreases ops.len(),
{
    if ops.len() == 0 {
        0
    } else {
        applied_count(ops.drop_last()) + if ops.last() is Applied {
            1nat
        } else {
            0nat
        }
    }
}

pub open spec fn no_fit_count<C>(ops: Seq<OutputOperationResult<C>>) -> nat
    decreases ops.len(),
{
    if ops.len() == 0 {
        0
    } else {
        no_fit_count(ops.drop_last()) + if ops.last() matches OutputOperationResult::Applied {
            no_fit: true,
            ..
        } {
            1nat
        } else {
            0nat
        }
    }
}

pub open spec fn displaced_count<C>(ops: Seq<OutputOperationResult<C>>) -> nat
    decreases ops.len(),
{
    if ops.len() == 0 {
        0
    } else {
        displaced_count(ops.drop_last()) + if ops.last() matches OutputOperationResult::Applied {
            displaced: Some(_),
            ..
        } {
            1nat
        } else {
            0nat
        }
    }
}

/// The rows once `job` is committed: a changed, applicable job replaces the
/// science of its row and advances that row's revision.
pub open spec fn rows_after_job<D, C>(rows: Seq<DeviceEntry<D>>, job: OutputJobResult<D, C>) -> Seq<
    DeviceEntry<D>,
> {
    if job_applies(rows, job) && job.changed {
        let i = live_index(rows, job.token);
        rows.update(i, rows[i].with_science(job.science))
    } else {
        rows
    }
}

pub open spec fn rows_after_jobs<D, C>(rows: Seq<DeviceEntry<D>>, jobs: Seq<OutputJobResult<D, C>>) -> Seq<
    DeviceEntry<D>,
>
    decreases jobs.len(),
{
    if jobs.len() == 0 {
        rows
    } else {
        rows_after_job(rows_after_jobs(rows, jobs.drop_last()), jobs.last())
    }
}

pub open spec fn jobs_effects<D, C>(rows: Seq<DeviceEntry<D>>, jobs: Seq<OutputJobResult<D, C>>) -> Seq<
    OutputEffect<C>,
>
    decreases jobs.len(),
{
    if jobs.len() == 0 {
        Seq::empty()
    } else {
        jobs_effects(rows, jobs.drop_last()) + job_effects(
            rows_after_jobs(rows, jobs.drop_last()),
            jobs.last(),
        )
    }
}

pub open spec fn jobs_issues<D, C>(rows: Seq<DeviceEntry<D>>, jobs: Seq<OutputJobResult<D, C>>) -> Seq<
    (Seq<char>, Seq<char>, bool),
>
    decreases jobs.len(),
{
    if jobs.len() == 0 {
        Seq::empty()
    } else {
        jobs_issues(rows, jobs.drop_last()) + job_issues(
            rows_after_jobs(rows, jobs.drop_last()),
            jobs.last(),
        )
    }
}

/// Counts `count` over the operations of every applicable job.
pub open spec fn jobs_count<D, C>(
    rows: Seq<DeviceEntry<D>>,
    jobs: Seq<OutputJobResult<D, C>>,
    count: spec_fn(Seq<OutputOperationResult<C>>) -> nat,
) -> nat
    decreases jobs.len(),
{
    if jobs.len() == 0 {
        0
    } else {
        jobs_count(rows, jobs.drop_last(), count) + if job_applies(
            rows_after_jobs(rows, jobs.drop_last()),
            jobs.last(),
        ) {
            count(jobs.last().operations@)
        } else {
            0
        }
    }
}

/// Some applicable job changed its device.
pub open spec fn jobs_succeeded<D, C>(rows: Seq<DeviceEntry<D>>, jobs: Seq<OutputJobResult<D, C>>) -> bool
    decreases jobs.len(),
{
    if jobs.len() == 0 {
        false
    } else {
        jobs_succeeded(rows, jobs.drop_last()) || (job_applies(
            rows_after_jobs(rows, jobs.drop_last()),
            jobs.last(),
        ) && jobs.last().changed)
    }
}

pub open spec fn deferred_effect<C>(d: DeferredOutput<C>) -> OutputEffect<C> {
    PendingEffect::FreshPending { ordinal: d.ordinal, pending: import_pending(d.import, d.reason) }
}

pub open spec fn total_operations<D, C>(jobs: Seq<OutputJobResult<D, C>>) -> nat
    decreases jobs.len(),
{
    if jobs.len() == 0 {
        0
    } else {
        total_operations(jobs.drop_last()) + jobs.last().operations@.len()
    }
}

// ---------------------------------------------------------------------------
// Proof helpers
// ---------------------------------------------------------------------------

proof fn lemma_issue_views_push(s: Seq<OutputIssue>, x: OutputIssue)
    ensures
        issue_views(s.push(x)) == issue_views(s).push(x@),
{
    assert(issue_views(s.push(x)) =~= issue_views(s).push(x@));
}

proof fn lemma_counts_bounded<C>(ops: Seq<OutputOperationResult<C>>)
    ensures
        applied_count(ops) <= ops.len(),
        no_fit_count(ops) <= ops.len(),
        displaced_count(ops) <= ops.len(),
    decreases ops.len(),
{
    if ops.len() > 0 {
        lemma_counts_bounded(ops.drop_last());
    }
}

proof fn lemma_jobs_count_bounded<D, C>(
    rows: Seq<DeviceEntry<D>>,
    jobs: Seq<OutputJobResult<D, C>>,
    count: spec_fn(Seq<OutputOperationResult<C>>) -> nat,
)
    requires
        forall|ops: Seq<OutputOperationResult<C>>| #[trigger] count(ops) <= ops.len(),
    ensures
        jobs_count(rows, jobs, count) <= total_operations(jobs),
    decreases jobs.len(),
{
    if jobs.len() > 0 {
        lemma_jobs_count_bounded(rows, jobs.drop_last(), count);
        let _ = count(jobs.last().operations@);
    }
}

proof fn lemma_total_prefix<D, C>(jobs: Seq<OutputJobResult<D, C>>, k: int)
    requires
        0 <= k <= jobs.len(),
    ensures
        total_operations(jobs.take(k)) <= total_operations(jobs),
    decreases jobs.len() - k,
{
    if k < jobs.len() {
        lemma_total_prefix(jobs, k + 1);
        assert(jobs.take(k + 1).drop_last() =~= jobs.take(k));
    } else {
        assert(jobs.take(k) =~= jobs);
    }
}

/// Committing jobs keeps every row's identity and place, and advances each
/// revision by at most one per job.
proof fn lemma_rows_after_jobs<D, C>(rows: Seq<DeviceEntry<D>>, jobs: Seq<OutputJobResult<D, C>>)
    requires
        forall|i: int| 0 <= i < rows.len() ==> #[trigger] rows[i].revision_val() + jobs.len() <= u64::MAX,
    ensures
        rows_after_jobs(rows, jobs).len() == rows.len(),
        forall|i: int|
            0 <= i < rows.len() ==> (#[trigger] rows_after_jobs(rows, jobs)[i]).id_val()
                == rows[i].id_val() && rows_after_jobs(rows, jobs)[i].revision_val()
                <= rows[i].revision_val() + jobs.len(),
    decreases jobs.len(),
{
    if jobs.len() > 0 {
        let prev = rows_after_jobs(rows, jobs.drop_last());
        lemma_rows_after_jobs(rows, jobs.drop_last());
        let job = jobs.last();
        if job_applies(prev, job) && job.changed {
            let i = live_index(prev, job.token);
            assert(0 <= i < prev.len());
            prev[i].lemma_with_science(job.science);
        }
    }
}

// ---------------------------------------------------------------------------
// The commit
// ---------------------------------------------------------------------------

fn issue(name: String, message: &str) -> (r: OutputIssue)
    ensures
        r@ == (name@, message@, false),
{
    OutputIssue { name, message: owned(message), persist: false }
}

/// Moves the deferred files of the summary into fresh pending effects.
fn deferred_into_effects<C>(pending: Vec<DeferredOutput<C>>) -> (r: Vec<OutputEffect<C>>)
    ensures
        r@ == pending@.map_values(|d: DeferredOutput<C>| deferred_effect(d)),
{
    let ghost all = pending@;
    let mut rest = pending;
    let mut out: Vec<OutputEffect<C>> = Vec::new();
    let ghost mut k: int = 0;
    while rest.len() > 0
        invariant
            0 <= k <= all.len(),
            rest@ =~= all.skip(k),
            out@ =~= all.take(k).map_values(|d: DeferredOutput<C>| deferred_effect(d)),
        decreases rest@.len(),
    {
        let d = rest.remove(0);
        proof {
            assert(d == all[k]);
            assert(all.take(k + 1) =~= all.take(k).push(all[k]));
        }
        let DeferredOutput { ordinal, import, reason } = d;
        let OutputImport { source, curves } = import;
        out.push(
            PendingEffect::FreshPending {
                ordinal,
                pending: PendingOutput { source, curves, reason },
            },
        );
        proof {
            k = k + 1;
        }
    }
    proof {
        assert(all.take(k) =~= all);
    }
    out
}

impl<D, C, T> ModelFitState<D, C, T> {
    /// Commits one job's result: a stale job keeps its files pending as
    /// "device changed"; a clear error is reported; otherwise a changed job
    /// commits its science and each operation leaves its pending effects.
    fn commit_output_job(
        &mut self,
        job: OutputJobResult<D, C>,
        effects: &mut Vec<OutputEffect<C>>,
        report: &mut OutputCommitReport,
    )
        requires
            old(self).wf(),
            job.science.wf(),
            forall|i: int|
                0 <= i < old(self).rows().len() ==> #[trigger] old(self).rows()[i].revision_val()
                    < u64::MAX,
            old(report).attached + job.operations@.len() <= usize::MAX,
            old(report).unfittable + job.operations@.len() <= usize::MAX,
            old(report).displaced + job.operations@.len() <= usize::MAX,
        ensures
            final(self).wf(),
            final(self).rows() == rows_after_job(old(self).rows(), job),
            final(self).outputs() == old(self).outputs(),
            final(self).dibls() == old(self).dibls(),
            final(self).selection() == old(self).selection(),
            final(self).model_index() == old(self).model_index(),
            final(self).next_id() == old(self).next_id(),
            final(effects)@ == old(effects)@ + job_effects(old(self).rows(), job),
            issue_views(final(report).issues@) == issue_views(old(report).issues@) + job_issues(
                old(self).rows(),
                job,
            ),
            final(report).attached == old(report).attached + if job_applies(old(self).rows(), job) {
                applied_count(job.operations@)
            } else {
                0
            },
            final(report).unfittable == old(report).unfittable + if job_applies(
                old(self).rows(),
                job,
            ) {
                no_fit_count(job.operations@)
            } else {
                0
            },
            final(report).displaced == old(report).displaced + if job_applies(
                old(self).rows(),
                job,
            ) {
                displaced_count(job.operations@)
            } else {
                0
            },
            final(report).action_succeeded == (old(report).action_succeeded || (job_applies(
                old(self).rows(),
                job,
            ) && job.changed)),
            final(report).purpose == old(report).purpose,
            final(report).unmatched == old(report).unmatched,
            final(report).ambiguous == old(report).ambiguous,
    {
        let ghost rows = self.rows();
        let ghost ops = job.operations@;
        let ghost old_job = job;
        let current = self.current_index(job.token);
        proof {
            self.lemma_wf_rows();
            if token_live(rows, job.token) {
                let w = choose|i: int|
                    0 <= i < rows.len() && rows[i].id_val() == job.token.id_val()
                        && rows[i].revision_val() == job.token.revision_val();
                assert(rows[w].id_val() == job.token.id_val());
            }
        }
        let OutputJobResult {
            token: _,
            device_name,
            science,
            operations,
            clear_pending,
            changed,
            clear_error,
        } = job;
        let idx = match current {
            None => {
                // The row is gone or was edited since the plan: keep the files.
                if operations.len() == 0 {
                    report.issues.push(issue(device_name, OUTPUT_STALE_MESSAGE));
                    proof {
                        assert(issue_views(report.issues@) =~= issue_views(old(report).issues@)
                            + job_issues(rows, old_job));
                    }
                    return ;
                }
                let mut rest = operations;
                let ghost mut m: int = 0;
                let ghost e0 = effects@;
                let ghost i0 = report.issues@;
                proof {
                    assert(e0 =~= e0 + ops.take(0).map_values(
                        |op: OutputOperationResult<C>| stale_effect(op),
                    ));
                    assert(issue_views(i0) =~= issue_views(i0) + ops.take(0).map_values(
                        |op: OutputOperationResult<C>| stale_issue(op),
                    ));
                }
                while rest.len() > 0
                    invariant
                        0 <= m <= ops.len(),
                        rest@ =~= ops.skip(m),
                        effects@ =~= e0 + ops.take(m).map_values(
                            |op: OutputOperationResult<C>| stale_effect(op),
                        ),
                        issue_views(report.issues@) =~= issue_views(i0) + ops.take(m).map_values(
                            |op: OutputOperationResult<C>| stale_issue(op),
                        ),
                        report.attached == old(report).attached,
                        report.unfittable == old(report).unfittable,
                        report.displaced == old(report).displaced,
                        report.action_succeeded == old(report).action_succeeded,
                        report.purpose == old(report).purpose,
                        report.unmatched == old(report).unmatched,
                        report.ambiguous == old(report).ambiguous,
                    decreases rest@.len(),
                {
                    let op = rest.remove(0);
                    proof {
                        assert(op == ops[m]);
                        assert(ops.take(m + 1) =~= ops.take(m).push(ops[m]));
                    }
                    let (ordinal, import) = match op {
                        OutputOperationResult::Applied { ordinal, import, .. } => (ordinal, import),
                        OutputOperationResult::DiblConflict { ordinal, import } => (ordinal, import),
                    };
                    let name = owned(import.source.name());
                    let ghost before = report.issues@;
                    let new_issue = issue(name, OUTPUT_STALE_MESSAGE);
                    report.issues.push(new_issue);
                    proof {
                        lemma_issue_views_push(before, new_issue);
                        assert(new_issue@ == stale_issue(ops[m]));
                    }
                    let OutputImport { source, curves } = import;
                    effects.push(
                        PendingEffect::FreshPending {
                            ordinal,
                            pending: PendingOutput {
                                source,
                                curves,
                                reason: PendingOutputReason::DeviceChanged,
                            },
                        },
                    );
                    proof {
                        assert(issue_views(report.issues@) =~= issue_views(i0) + ops.take(
                            m + 1,
                        ).map_values(|op: OutputOperationResult<C>| stale_issue(op)));
                        m = m + 1;
                    }
                }
                proof {
                    assert(ops.take(m) =~= ops);
                }
                return ;
            },
            Some(i) => i,
        };
        proof {
            assert(idx == live_index(rows, old_job.token));
        }
        match clear_error {
            Some(message) => {
                report.issues.push(OutputIssue { name: device_name, message, persist: false });
                proof {
                    assert(issue_views(report.issues@) =~= issue_views(old(report).issues@)
                        + job_issues(rows, old_job));
                    assert(effects@ =~= old(effects)@ + job_effects(rows, old_job));
                }
                return ;
            },
            None => {},
        }
        if changed {
            self.commit_science_at(idx, science);
            report.action_succeeded = true;
        }
        let mut rest = operations;
        let ghost mut m: int = 0;
        let ghost e0 = effects@;
        let ghost i0 = report.issues@;
        let ghost a0 = report.attached;
        let ghost u0 = report.unfittable;
        let ghost d0 = report.displaced;
        proof {
            assert(ops.take(0) =~= Seq::<OutputOperationResult<C>>::empty());
            assert(e0 =~= e0 + ops_effects(ops.take(0)));
            assert(issue_views(i0) =~= issue_views(i0) + conflict_issues(ops.take(0)));
            lemma_counts_bounded(ops);
        }
        while rest.len() > 0
            invariant
                0 <= m <= ops.len(),
                rest@ =~= ops.skip(m),
                effects@ =~= e0 + ops_effects(ops.take(m)),
                issue_views(report.issues@) =~= issue_views(i0) + conflict_issues(ops.take(m)),
                report.attached == a0 + applied_count(ops.take(m)),
                report.unfittable == u0 + no_fit_count(ops.take(m)),
                report.displaced == d0 + displaced_count(ops.take(m)),
                a0 + ops.len() <= usize::MAX,
                u0 + ops.len() <= usize::MAX,
                d0 + ops.len() <= usize::MAX,
                report.action_succeeded == (old(report).action_succeeded || changed),
                report.purpose == old(report).purpose,
                report.unmatched == old(report).unmatched,
                report.ambiguous == old(report).ambiguous,
            decreases rest@.len(),
        {
            let op = rest.remove(0);
            proof {
                assert(op == ops[m]);
                assert(ops.take(m + 1).drop_last() =~= ops.take(m));
                lemma_counts_bounded(ops.take(m + 1));
                lemma_counts_bounded(ops.skip(m));
                assert(ops.take(m + 1).last() == ops[m]);
                assert(applied_count(ops.take(m + 1)) <= m + 1);
            }
            match op {
                OutputOperationResult::Applied { ordinal, import, no_fit, displaced } => {
                    report.attached = report.attached + 1;
                    if no_fit {
                        report.unfittable = report.unfittable + 1;
                    }
                    effects.push(PendingEffect::FreshClear { ordinal, source: import.source });
                    match displaced {
                        Some(d) => {
                            report.displaced = report.displaced + 1;
                            let RankedPendingOutput { generation, pending } = d;
                            match generation {
                                Some(g) => {
                                    effects.push(
                                        PendingEffect::FreshPending { ordinal: g, pending },
                                    );
                                },
                                None => {
                                    effects.push(
                                        PendingEffect::PreCommandDisplacement { ordinal, pending },
                                    );
                                },
                            }
                        },
                        None => {},
                    }
                },
                OutputOperationResult::DiblConflict { ordinal, import } => {
                    let name = owned(import.source.name());
                    let ghost before = report.issues@;
                    let new_issue = issue(name, OUTPUT_DIBL_CONFLICT_MESSAGE);
                    report.issues.push(new_issue);
                    proof {
                        lemma_issue_views_push(before, new_issue);
                    }
                    let OutputImport { source, curves } = import;
                    effects.push(
                        PendingEffect::FreshPending {
                            ordinal,
                            pending: PendingOutput {
                                source,
                                curves,
                                reason: PendingOutputReason::DiblConflict,
                            },
                        },
                    );
                },
            }
            proof {
                assert(effects@ =~= e0 + ops_effects(ops.take(m + 1)));
                assert(issue_views(report.issues@) =~= issue_views(i0) + conflict_issues(
                    ops.take(m + 1),
                ));
                m = m + 1;
            }
        }
        proof {
            assert(ops.take(m) =~= ops);
        }
        match clear_pending {
            Some(p) => {
                effects.push(PendingEffect::CurrentDetach(p));
            },
            None => {},
        }
        proof {
            assert(effects@ =~= old(effects)@ + job_effects(rows, old_job));
        }
    }

    /// Commits a finished output refinement. Each job applies only when its
    /// row still has the identity and revision the plan captured; every file
    /// that could not be attached stays pending, and the pending list takes
    /// all effects in their terminal order.
    pub fn commit_output_refinement(&mut self, result: OutputRefinementResult<D, C>) -> (r:
        OutputCommitReport)
        requires
            old(self).wf(),
            forall|j: int| 0 <= j < result.jobs@.len() ==> (#[trigger] result.jobs@[j]).science.wf(),
            forall|i: int|
                0 <= i < old(self).rows().len() ==> #[trigger] old(self).rows()[i].revision_val()
                    + result.jobs@.len() <= u64::MAX,
            total_operations(result.jobs@) <= usize::MAX,
        ensures
            final(self).wf(),
            final(self).rows() == rows_after_jobs(old(self).rows(), result.jobs@),
            final(self).outputs() == pending_after(
                old(self).outputs(),
                result.summary.pending@.map_values(|d: DeferredOutput<C>| deferred_effect(d))
                    + jobs_effects(old(self).rows(), result.jobs@),
            ),
            final(self).dibls() == old(self).dibls(),
            final(self).selection() == old(self).selection(),
            final(self).model_index() == old(self).model_index(),
            final(self).next_id() == old(self).next_id(),
            r.purpose == result.purpose,
            r.unmatched == result.summary.unmatched,
            r.ambiguous == result.summary.ambiguous,
            r.attached == jobs_count(
                old(self).rows(),
                result.jobs@,
                |ops: Seq<OutputOperationResult<C>>| applied_count(ops),
            ),
            r.unfittable == jobs_count(
                old(self).rows(),
                result.jobs@,
                |ops: Seq<OutputOperationResult<C>>| no_fit_count(ops),
            ),
            r.displaced == jobs_count(
                old(self).rows(),
                result.jobs@,
                |ops: Seq<OutputOperationResult<C>>| displaced_count(ops),
            ),
            issue_views(r.issues@) == issue_views(result.summary.parse_issues@) + jobs_issues(
                old(self).rows(),
                result.jobs@,
            ),
            r.action_succeeded == jobs_succeeded(old(self).rows(), result.jobs@),
    {
        let OutputRefinementResult { purpose, summary, jobs } = result;
        let OutputImportSummary { unmatched, ambiguous, pending, parse_issues } = summary;
        let mut report = OutputCommitReport {
            purpose,
            attached: 0,
            unfittable: 0,
            unmatched,
            ambiguous,
            displaced: 0,
            issues: parse_issues,
            action_succeeded: false,
        };
        let mut effects = deferred_into_effects(pending);
        let ghost rows0 = self.rows();
        let ghost all = jobs@;
        let ghost e0 = effects@;
        let ghost i0 = report.issues@;
        let ghost applied = |ops: Seq<OutputOperationResult<C>>| applied_count(ops);
        let ghost no_fit = |ops: Seq<OutputOperationResult<C>>| no_fit_count(ops);
        let ghost displaced = |ops: Seq<OutputOperationResult<C>>| displaced_count(ops);
        let mut rest = jobs;
        let ghost mut k: int = 0;
        proof {
            assert(all.take(0) =~= Seq::<OutputJobResult<D, C>>::empty());
            assert(e0 =~= e0 + jobs_effects(rows0, all.take(0)));
            assert(issue_views(i0) =~= issue_views(i0) + jobs_issues(rows0, all.take(0)));
            assert forall|ops: Seq<OutputOperationResult<C>>| #[trigger] applied(ops) <= ops.len() by {
                lemma_counts_bounded(ops);
            }
            assert forall|ops: Seq<OutputOperationResult<C>>| #[trigger] no_fit(ops) <= ops.len() by {
                lemma_counts_bounded(ops);
            }
            assert forall|ops: Seq<OutputOperationResult<C>>| #[trigger] displaced(ops) <= ops.len() by {
                lemma_counts_bounded(ops);
            }
        }
        while rest.len() > 0
            invariant
                0 <= k <= all.len(),
                rest@ =~= all.skip(k),
                self.wf(),
                forall|j: int| 0 <= j < all.len() ==> (#[trigger] all[j]).science.wf(),
                forall|i: int|
                    0 <= i < rows0.len() ==> #[trigger] rows0[i].revision_val() + all.len()
                        <= u64::MAX,
                total_operations(all) <= usize::MAX,
                forall|ops: Seq<OutputOperationResult<C>>| #[trigger] applied(ops) <= ops.len(),
                forall|ops: Seq<OutputOperationResult<C>>| #[trigger] no_fit(ops) <= ops.len(),
                forall|ops: Seq<OutputOperationResult<C>>| #[trigger] displaced(ops) <= ops.len(),
                applied == |ops: Seq<OutputOperationResult<C>>| applied_count(ops),
                no_fit == |ops: Seq<OutputOperationResult<C>>| no_fit_count(ops),
                displaced == |ops: Seq<OutputOperationResult<C>>| displaced_count(ops),
                self.rows() == rows_after_jobs(rows0, all.take(k)),
                self.outputs() == old(self).outputs(),
                self.dibls() == old(self).dibls(),
                self.selection() == old(self).selection(),
                self.model_index() == old(self).model_index(),
                self.next_id() == old(self).next_id(),
                rows0 == old(self).rows(),
                effects@ =~= e0 + jobs_effects(rows0, all.take(k)),
                issue_views(report.issues@) =~= issue_views(i0) + jobs_issues(rows0, all.take(k)),
                report.attached == jobs_count(rows0, all.take(k), applied),
                report.unfittable == jobs_count(rows0, all.take(k), no_fit),
                report.displaced == jobs_count(rows0, all.take(k), displaced),
                report.action_succeeded == jobs_succeeded(rows0, all.take(k)),
                report.purpose == purpose,
                report.unmatched == unmatched,
                report.ambiguous == ambiguous,
            decreases rest@.len(),
        {
            let job = rest.remove(0);
            proof {
                assert(job == all[k]);
                let t = all.take(k + 1);
                assert(t.drop_last() =~= all.take(k));
                assert(t.last() == all[k]);
                lemma_rows_after_jobs(rows0, all.take(k));
                lemma_jobs_count_bounded(rows0, all.take(k), applied);
                lemma_jobs_count_bounded(rows0, all.take(k), no_fit);
                lemma_jobs_count_bounded(rows0, all.take(k), displaced);
                lemma_total_prefix(all, k + 1);
                assert(total_operations(t) == total_operations(all.take(k)) + all[k].operations@.len());
                assert forall|i: int| 0 <= i < self.rows().len() implies #[trigger] self.rows()[i].revision_val() < u64::MAX by {
                    assert(self.rows()[i].revision_val() <= rows0[i].revision_val() + k);
                }
                let _ = applied(all[k].operations@);
                let _ = no_fit(all[k].operations@);
                let _ = displaced(all[k].operations@);
            }
            self.commit_output_job(job, &mut effects, &mut report);
            proof {
                let t = all.take(k + 1);
                assert(t.drop_last() =~= all.take(k));
                assert(effects@ =~= e0 + jobs_effects(rows0, t));
                assert(issue_views(report.issues@) =~= issue_views(i0) + jobs_issues(rows0, t));
                k = k + 1;
            }
        }
        proof {
            assert(all.take(k) =~= all);
        }
        self.apply_output_effects(effects);
        report
    }
}

// ---------------------------------------------------------------------------
// Planning
// ---------------------------------------------------------------------------
// Parsed files
// ---------------------------------------------------------------------------

/// Issue text for a parsed output file without a visible name.
pub const OUTPUT_SOURCE_NAME_MESSAGE: &'static str = "The output file has no visible file name.";

/// One output file as the worker read it: its path, the canonical form of
/// that path when the filesystem gave one, its file name, and its curves or
/// the parser's message.
pub struct ParsedOutput<C> {
    pub path: String,
    pub canonical: Option<String>,
    pub name: String,
    pub result: Result<C, String>,
}

/// The provenance of a parsed file: its name and path, compared by the
/// canonical path when there is one.
pub open spec fn parsed_view(path: Seq<char>, canonical: Option<Seq<char>>, name: Seq<char>) -> ProvenanceView {
    ProvenanceView {
        name,
        path: Some(path),
        identity: match canonical {
            Some(c) => Some(c),
            None => Some(path),
        },
    }
}

/// The imports of a parsed batch, in order: each file that parsed and has a
/// visible name.
pub open spec fn parsed_output_imports<C>(s: Seq<ParsedOutput<C>>) -> Seq<(ProvenanceView, C)>
    decreases s.len(),
{
    if s.len() == 0 {
        Seq::empty()
    } else {
        let p = s.last();
        parsed_output_imports(s.drop_last()) + match p.result {
            Ok(c) => if is_blank(p.name@) {
                Seq::empty()
            } else {
                seq![(parsed_view(p.path@, opt_view(p.canonical), p.name@), c)]
            },
            Err(_) => Seq::empty(),
        }
    }
}

/// The issues of a parsed batch, in order: each parser failure, and each
/// parsed file without a visible name, under the file's visible name; all
/// persist.
pub open spec fn parsed_output_issues<C>(s: Seq<ParsedOutput<C>>) -> Seq<(Seq<char>, Seq<char>, bool)>
    decreases s.len(),
{
    if s.len() == 0 {
        Seq::empty()
    } else {
        let p = s.last();
        parsed_output_issues(s.drop_last()) + match p.result {
            Ok(_) => if is_blank(p.name@) {
                seq![(visible_name(p.name@, p.path@), OUTPUT_SOURCE_NAME_MESSAGE@, true)]
            } else {
                Seq::empty()
            },
            Err(m) => seq![(visible_name(p.name@, p.path@), m@, true)],
        }
    }
}

pub open spec fn import_key<C>(i: OutputImport<C>) -> (ProvenanceView, C) {
    (i.source@, i.curves)
}

/// Splits a parsed batch into imports and issues, each in order.
pub fn output_imports_from_parsed<C>(parsed: Vec<ParsedOutput<C>>) -> (r: (Vec<OutputImport<C>>, Vec<OutputIssue>))
    ensures
        r.0@.map_values(|i: OutputImport<C>| import_key(i)) == parsed_output_imports(parsed@),
        forall|i: int| 0 <= i < r.0@.len() ==> (#[trigger] r.0@[i]).source.wf(),
        issue_views(r.1@) == parsed_output_issues(parsed@),
{
    let ghost all = parsed@;
    let mut imports: Vec<OutputImport<C>> = Vec::new();
    let mut issues: Vec<OutputIssue> = Vec::new();
    let mut rest = parsed;
    let ghost mut k: int = 0;
    proof {
        assert(all.take(0) =~= Seq::<ParsedOutput<C>>::empty());
        assert(imports@.map_values(|i: OutputImport<C>| import_key(i)) =~= Seq::<(ProvenanceView, C)>::empty());
        assert(issue_views(issues@) =~= Seq::<(Seq<char>, Seq<char>, bool)>::empty());
    }
    while rest.len() > 0
        invariant
            0 <= k <= all.len(),
            rest@ =~= all.skip(k),
            imports@.map_values(|i: OutputImport<C>| import_key(i)) == parsed_output_imports(all.take(k)),
            forall|i: int| 0 <= i < imports@.len() ==> (#[trigger] imports@[i]).source.wf(),
            issue_views(issues@) == parsed_output_issues(all.take(k)),
        decreases rest@.len(),
    {
        let p = rest.remove(0);
        let ghost t = all.take(k + 1);
        proof {
            assert(all[k] == p);
            assert(t.drop_last() =~= all.take(k));
            assert(t.last() == p);
        }
        let ghost before_imports = imports@;
        let ghost before_issues = issues@;
        let ParsedOutput { path, canonical, name, result } = p;
        match result {
            Ok(curves) => {
                match OutputSource::new(name.as_str(), Some(path.clone())) {
                    Ok(mut source) => {
                        match &canonical {
                            Some(c) => source.resolve_identity(c.as_str()),
                            None => {},
                        }
                        imports.push(OutputImport { source, curves });
                        proof {
                            assert(imports@ =~= before_imports.push(imports@.last()));
                            assert(imports@.map_values(|i: OutputImport<C>| import_key(i)) =~= before_imports.map_values(
                                |i: OutputImport<C>| import_key(i),
                            ).push(import_key(imports@.last())));
                            assert(issue_views(issues@) =~= issue_views(before_issues));
                        }
                    },
                    Err(_) => {
                        let issue = OutputIssue {
                            name: visible_source_name(name.as_str(), path.as_str()),
                            message: owned(OUTPUT_SOURCE_NAME_MESSAGE),
                            persist: true,
                        };
                        issues.push(issue);
                        proof {
                            assert(issue_views(issues@) =~= issue_views(before_issues).push(issues@.last()@));
                        }
                    },
                }
            },
            Err(message) => {
                let issue = OutputIssue {
                    name: visible_source_name(name.as_str(), path.as_str()),
                    message,
                    persist: true,
                };
                issues.push(issue);
                proof {
                    assert(issue_views(issues@) =~= issue_views(before_issues).push(issues@.last()@));
                }
            },
        }
        proof {
            k = k + 1;
        }
    }
    proof {
        assert(all.take(k) =~= all);
    }
    (imports, issues)
}

// ---------------------------------------------------------------------------

/// What the worker does for one device.
pub enum OutputOperation<C> {
    /// Attach `import`, replacing the attached output.
    Replace { ordinal: usize, import: OutputImport<C> },
    /// Detach the attached output; `keep_pending` keeps it as pending.
    Clear { keep_pending: bool },
}

/// The worker's input for one device: the row's token and a copy of its science.
pub struct OutputJob<D, C> {
    pub token: DeviceToken,
    pub device_name: String,
    pub science: DeviceScience<D>,
    pub operations: Vec<OutputOperation<C>>,
}

pub struct OutputRefinementPlan<D, C> {
    pub purpose: OutputRefinementPurpose,
    pub summary: OutputImportSummary<C>,
    pub jobs: Vec<OutputJob<D, C>>,
}

impl<C> OutputImportSummary<C> {
    /// A summary that deferred nothing.
    pub fn empty() -> (r: Self)
        ensures
            r.unmatched == 0,
            r.ambiguous == 0,
            r.pending@.len() == 0,
            r.parse_issues@.len() == 0,
    {
        OutputImportSummary { unmatched: 0, ambiguous: 0, pending: Vec::new(), parse_issues: Vec::new() }
    }
}

/// The row pairs with a file of normalized stem `stem`.
pub open spec fn pairs_with<D>(e: DeviceEntry<D>, stem: Seq<char>) -> bool {
    device_base(e.science_spec().stem()) == device_base(stem)
}

/// Number of rows that pair with a file of normalized stem `stem`.
pub open spec fn match_count<D>(rows: Seq<DeviceEntry<D>>, stem: Seq<char>) -> nat
    decreases rows.len(),
{
    if rows.len() == 0 {
        0
    } else {
        match_count(rows.drop_last(), stem) + if pairs_with(rows.last(), stem) {
            1nat
        } else {
            0nat
        }
    }
}

/// The row that pairs with `stem`, when exactly one does.
pub open spec fn matched_row<D>(rows: Seq<DeviceEntry<D>>, stem: Seq<char>) -> int {
    choose|i: int| 0 <= i < rows.len() && pairs_with(#[trigger] rows[i], stem)
}

/// The operations of the files that pair with exactly one row, grouped by row
/// in the order each row was first paired, each group in dialog order.
pub open spec fn planned_groups<D, C>(
    rows: Seq<DeviceEntry<D>>,
    stems: Seq<Seq<char>>,
    imports: Seq<OutputImport<C>>,
) -> Seq<(int, Seq<OutputOperation<C>>)>
    decreases imports.len(),
{
    if imports.len() == 0 {
        Seq::empty()
    } else {
        let n = imports.len() - 1;
        let g = planned_groups(rows, stems, imports.drop_last());
        if match_count(rows, stems[n]) == 1 {
            add_to_group(
                g,
                matched_row(rows, stems[n]),
                OutputOperation::Replace { ordinal: n as usize, import: imports[n] },
            )
        } else {
            g
        }
    }
}

/// The files that pair with no row (no match) or with several (ambiguous), in
/// dialog order.
pub open spec fn planned_deferred<D, C>(
    rows: Seq<DeviceEntry<D>>,
    stems: Seq<Seq<char>>,
    imports: Seq<OutputImport<C>>,
) -> Seq<DeferredOutput<C>>
    decreases imports.len(),
{
    if imports.len() == 0 {
        Seq::empty()
    } else {
        let n = imports.len() - 1;
        let d = planned_deferred(rows, stems, imports.drop_last());
        let c = match_count(rows, stems[n]);
        if c == 0 {
            d.push(DeferredOutput { ordinal: n as usize, import: imports[n], reason: PendingOutputReason::NoMatch })
        } else if c >= 2 {
            d.push(
                DeferredOutput { ordinal: n as usize, import: imports[n], reason: PendingOutputReason::Ambiguous },
            )
        } else {
            d
        }
    }
}

/// Number of files among the first `n` whose match count is `zero ? 0 : >= 2`.
pub open spec fn planned_count<D>(rows: Seq<DeviceEntry<D>>, stems: Seq<Seq<char>>, n: int, zero: bool) -> nat
    decreases n,
{
    if n <= 0 {
        0
    } else {
        let c = match_count(rows, stems[n - 1]);
        planned_count(rows, stems, n - 1, zero) + if (zero && c == 0) || (!zero && c >= 2) {
            1nat
        } else {
            0nat
        }
    }
}

/// A job stands for the group of row `r`: that row's token, name and science,
/// and exactly the group's operations.
pub open spec fn job_for<D: Clone, C>(
    job: OutputJob<D, C>,
    rows: Seq<DeviceEntry<D>>,
    r: int,
    ops: Seq<OutputOperation<C>>,
) -> bool {
    &&& 0 <= r < rows.len()
    &&& job.token.id_val() == rows[r].id_val()
    &&& job.token.revision_val() == rows[r].revision_val()
    &&& job.device_name@ == rows[r].science_spec().name()
    &&& job.science.agrees(&rows[r].science_spec())
    &&& cloned(rows[r].science_spec().device_spec(), job.science.device_spec())
    &&& job.science.wf()
    &&& job.operations@ == ops
}

/// The plan of a detach (keeping the curves pending) or a removal of the
/// output of row `idx`: one job on that row that clears its output.
pub open spec fn clear_plan<D: Clone, C>(
    p: OutputRefinementPlan<D, C>,
    rows: Seq<DeviceEntry<D>>,
    idx: int,
    purpose: OutputRefinementPurpose,
) -> bool {
    &&& p.purpose == purpose
    &&& p.summary.unmatched == 0 && p.summary.ambiguous == 0
    &&& p.summary.pending@.len() == 0 && p.summary.parse_issues@.len() == 0
    &&& p.jobs@.len() == 1
    &&& job_for(
        p.jobs@[0],
        rows,
        idx,
        seq![OutputOperation::Clear { keep_pending: purpose == OutputRefinementPurpose::Detach }],
    )
}

/// The plan of attaching pending output `pending_idx` to row `sel`: one job
/// on that row that imports that pending file's source and a clone of its
/// curves.
pub open spec fn attach_plan<D: Clone, C: Clone>(
    p: OutputRefinementPlan<D, C>,
    rows: Seq<DeviceEntry<D>>,
    outputs: Seq<PendingOutput<C>>,
    sel: int,
    pending_idx: int,
) -> bool {
    &&& p.purpose == OutputRefinementPurpose::AttachPending
    &&& p.summary.unmatched == 0 && p.summary.ambiguous == 0
    &&& p.summary.pending@.len() == 0 && p.summary.parse_issues@.len() == 0
    &&& p.jobs@.len() == 1
    &&& p.jobs@[0].operations@.len() == 1
    &&& p.jobs@[0].operations@[0] matches OutputOperation::Replace { ordinal, import }
        && ordinal == 0 && import.source == outputs[pending_idx].source
        && cloned(outputs[pending_idx].curves, import.curves)
    &&& job_for(p.jobs@[0], rows, sel, p.jobs@[0].operations@)
}

pub open spec fn jobs_for_groups<D: Clone, C>(
    jobs: Seq<OutputJob<D, C>>,
    rows: Seq<DeviceEntry<D>>,
    g: Seq<(int, Seq<OutputOperation<C>>)>,
) -> bool {
    &&& jobs.len() == g.len()
    &&& forall|k: int| 0 <= k < g.len() ==> job_for(#[trigger] jobs[k], rows, g[k].0, g[k].1)
    &&& forall|a: int, b: int| 0 <= a < b < g.len() ==> g[a].0 != g[b].0
}

proof fn lemma_match_count_witness<D>(rows: Seq<DeviceEntry<D>>, stem: Seq<char>, i: int)
    requires
        0 <= i < rows.len(),
        pairs_with(rows[i], stem),
    ensures
        match_count(rows, stem) >= 1,
    decreases rows.len(),
{
    if i < rows.len() - 1 {
        lemma_match_count_witness(rows.drop_last(), stem, i);
    }
}

proof fn lemma_match_count_take<D>(rows: Seq<DeviceEntry<D>>, stem: Seq<char>, n: int)
    requires
        0 <= n < rows.len(),
    ensures
        match_count(rows.take(n + 1), stem) == match_count(rows.take(n), stem) + if pairs_with(
            rows[n],
            stem,
        ) {
            1nat
        } else {
            0nat
        },
{
    assert(rows.take(n + 1).drop_last() =~= rows.take(n));
}

/// With exactly one pairing row, that row is `i` for any pairing `i`.
proof fn lemma_match_count_one<D>(rows: Seq<DeviceEntry<D>>, stem: Seq<char>, i: int, j: int)
    requires
        0 <= i < rows.len(),
        0 <= j < rows.len(),
        pairs_with(rows[i], stem),
        pairs_with(rows[j], stem),
        i != j,
    ensures
        match_count(rows, stem) >= 2,
    decreases rows.len(),
{
    let n = rows.len() - 1;
    if i == n {
        lemma_match_count_witness(rows.drop_last(), stem, j);
    } else if j == n {
        lemma_match_count_witness(rows.drop_last(), stem, i);
    } else {
        lemma_match_count_one(rows.drop_last(), stem, i, j);
    }
}

proof fn lemma_match_count_zero<D>(rows: Seq<DeviceEntry<D>>, stem: Seq<char>)
    requires
        forall|i: int| 0 <= i < rows.len() ==> !pairs_with(#[trigger] rows[i], stem),
    ensures
        match_count(rows, stem) == 0,
    decreases rows.len(),
{
    if rows.len() > 0 {
        lemma_match_count_zero(rows.drop_last(), stem);
    }
}

impl<D: Clone, C, T> ModelFitState<D, C, T> {
    /// The rows pairing with the normalized stem `stem`: the first two found.
    fn first_two_matches(&self, stem: &str) -> (r: (Option<usize>, Option<usize>))
        requires
            self.wf(),
        ensures
            match_count(self.rows(), stem@) == 0 <==> r.0 is None,
            match_count(self.rows(), stem@) == 1 <==> (r.0 is Some && r.1 is None),
            r.0 matches Some(i) ==> i < self.rows().len() && pairs_with(self.rows()[i as int], stem@),
            match_count(self.rows(), stem@) == 1 ==> r.0.unwrap() == matched_row(self.rows(), stem@),
    {
        let key = device_base_name(stem);
        let rows = self.devices();
        let mut first: Option<usize> = None;
        let mut i: usize = 0;
        while i < rows.len()
            invariant
                i <= rows@.len(),
                rows@ == self.rows(),
                key@ == device_base(stem@),
                match_count(rows@.take(i as int), stem@) == if first is Some {
                    1nat
                } else {
                    0nat
                },
                first matches Some(f) ==> f < i && pairs_with(rows@[f as int], stem@),
            decreases rows@.len() - i,
        {
            proof {
                lemma_match_count_take(rows@, stem@, i as int);
            }
            let base = device_base_name(rows[i].science().stem_str());
            if str_eq(base.as_str(), key.as_str()) {
                match first {
                    None => {
                        first = Some(i);
                    },
                    Some(f) => {
                        proof {
                            lemma_match_count_one(rows@, stem@, f as int, i as int);
                            assert(match_count(rows@, stem@) >= 2);
                        }
                        return (first, Some(i));
                    },
                }
            }
            i = i + 1;
        }
        proof {
            assert(rows@.take(i as int) =~= rows@);
            if let Some(f) = first {
                let m = matched_row(rows@, stem@);
                assert(pairs_with(rows@[f as int], stem@));
                if m != f {
                    lemma_match_count_one(rows@, stem@, f as int, m);
                }
            }
        }
        (first, None)
    }

    /// A job for row `r` with the single operation `op`.
    fn output_job_for_row(&self, r: usize, op: OutputOperation<C>) -> (j: OutputJob<D, C>)
        requires
            self.wf(),
            r < self.rows().len(),
        ensures
            job_for(j, self.rows(), r as int, seq![op]),
    {
        proof {
            self.lemma_wf_rows();
        }
        let entry = &self.devices()[r];
        let mut operations = Vec::new();
        operations.push(op);
        OutputJob {
            token: entry.token(),
            device_name: owned(entry.science().name_str()),
            science: entry.science().duplicate(),
            operations,
        }
    }

    /// Adds `op` to the job of row `r`, or opens that job last.
    fn push_output_import(
        &self,
        jobs: &mut Vec<OutputJob<D, C>>,
        r: usize,
        op: OutputOperation<C>,
        Ghost(g): Ghost<Seq<(int, Seq<OutputOperation<C>>)>>,
    )
        requires
            self.wf(),
            r < self.rows().len(),
            jobs_for_groups(old(jobs)@, self.rows(), g),
        ensures
            jobs_for_groups(final(jobs)@, self.rows(), add_to_group(g, r as int, op)),
    {
        proof {
            self.lemma_wf_rows();
        }
        let id = self.devices()[r].id().get();
        let mut k: usize = 0;
        while k < jobs.len()
            invariant
                self.wf(),
                k <= jobs@.len(),
                jobs@ == old(jobs)@,
                jobs_for_groups(jobs@, self.rows(), g),
                id == self.rows()[r as int].id_val(),
                r < self.rows().len(),
                forall|j: int| 0 <= j < k ==> g[j].0 != r,
            decreases jobs@.len() - k,
        {
            if jobs[k].token.id().get() == id {
                proof {
                    self.lemma_wf_rows();
                    assert(job_for(jobs@[k as int], self.rows(), g[k as int].0, g[k as int].1));
                    assert(g[k as int].0 == r as int);
                    assert(exists|q: int| 0 <= q < g.len() && (#[trigger] g[q]).0 == r);
                    let c = choose|q: int| 0 <= q < g.len() && (#[trigger] g[q]).0 == r;
                    assert(c == k);
                }
                let mut job = jobs.remove(k);
                job.operations.push(op);
                jobs.insert(k, job);
                proof {
                    let g2 = add_to_group(g, r as int, op);
                    assert forall|q: int| 0 <= q < g2.len() implies job_for(
                        #[trigger] jobs@[q],
                        self.rows(),
                        g2[q].0,
                        g2[q].1,
                    ) by {
                        if q != k {
                            assert(jobs@[q] == old(jobs)@[q]);
                        }
                    }
                }
                return ;
            }
            proof {
                assert(job_for(jobs@[k as int], self.rows(), g[k as int].0, g[k as int].1));
            }
            k = k + 1;
        }
        let job = self.output_job_for_row(r, op);
        jobs.push(job);
        proof {
            let g2 = add_to_group(g, r as int, op);
            assert(!exists|q: int| 0 <= q < g.len() && (#[trigger] g[q]).0 == r);
            assert forall|q: int| 0 <= q < g2.len() implies job_for(
                #[trigger] jobs@[q],
                self.rows(),
                g2[q].0,
                g2[q].1,
            ) by {
                if q < g.len() {
                    assert(jobs@[q] == old(jobs)@[q]);
                }
            }
        }
    }

    /// Plans an output import: each file goes to the one row it pairs with,
    /// grouped by row; a file pairing with no row or with several waits as
    /// pending. `stems` holds the normalized file stem of each import's name.
    pub fn plan_output_imports_with_issues(
        &self,
        imports: Vec<OutputImport<C>>,
        stems: Vec<String>,
        parse_issues: Vec<OutputIssue>,
    ) -> (r: OutputRefinementPlan<D, C>)
        requires
            self.wf(),
            stems@.len() == imports@.len(),
        ensures
            r.purpose == OutputRefinementPurpose::Import,
            r.summary.parse_issues == parse_issues,
            r.summary.pending@ == planned_deferred(
                self.rows(),
                stems@.map_values(|s: String| s@),
                imports@,
            ),
            r.summary.unmatched == planned_count(
                self.rows(),
                stems@.map_values(|s: String| s@),
                imports@.len() as int,
                true,
            ),
            r.summary.ambiguous == planned_count(
                self.rows(),
                stems@.map_values(|s: String| s@),
                imports@.len() as int,
                false,
            ),
            jobs_for_groups(
                r.jobs@,
                self.rows(),
                planned_groups(self.rows(), stems@.map_values(|s: String| s@), imports@),
            ),
    {
        let ghost keys = stems@.map_values(|s: String| s@);
        let ghost all = imports@;
        let count = imports.len();
        let mut rest = imports;
        let mut jobs: Vec<OutputJob<D, C>> = Vec::new();
        let mut pending: Vec<DeferredOutput<C>> = Vec::new();
        let mut unmatched: usize = 0;
        let mut ambiguous: usize = 0;
        let mut n: usize = 0;
        proof {
            assert(all.take(0) =~= Seq::<OutputImport<C>>::empty());
        }
        while rest.len() > 0
            invariant
                self.wf(),
                n <= all.len(),
                stems@.len() == all.len(),
                keys == stems@.map_values(|s: String| s@),
                rest@ =~= all.skip(n as int),
                jobs_for_groups(jobs@, self.rows(), planned_groups(self.rows(), keys, all.take(n as int))),
                pending@ == planned_deferred(self.rows(), keys, all.take(n as int)),
                unmatched == planned_count(self.rows(), keys, n as int, true),
                ambiguous == planned_count(self.rows(), keys, n as int, false),
                unmatched <= n,
                ambiguous <= n,
                all.len() == count,
            decreases rest@.len(),
        {
            let import = rest.remove(0);
            proof {
                assert(import == all[n as int]);
                assert(all.take(n + 1).drop_last() =~= all.take(n as int));
                assert(all.take(n + 1)[n as int] == all[n as int]);
                assert(keys[n as int] == stems@[n as int]@);
            }
            let (first, second) = self.first_two_matches(stems[n].as_str());
            match (first, second) {
                (Some(r), None) => {
                    let ghost g = planned_groups(self.rows(), keys, all.take(n as int));
                    self.push_output_import(
                        &mut jobs,
                        r,
                        OutputOperation::Replace { ordinal: n, import },
                        Ghost(g),
                    );
                },
                (None, _) => {
                    unmatched = unmatched + 1;
                    pending.push(DeferredOutput { ordinal: n, import, reason: PendingOutputReason::NoMatch });
                },
                (Some(_), Some(_)) => {
                    ambiguous = ambiguous + 1;
                    pending.push(
                        DeferredOutput { ordinal: n, import, reason: PendingOutputReason::Ambiguous },
                    );
                },
            }
            n = n + 1;
        }
        proof {
            assert(all.take(n as int) =~= all);
        }
        OutputRefinementPlan {
            purpose: OutputRefinementPurpose::Import,
            summary: OutputImportSummary { unmatched, ambiguous, pending, parse_issues },
            jobs,
        }
    }
}


impl<D: Clone, C: Clone, T> ModelFitState<D, C, T> {
    /// Plans attaching pending output `pending_idx` to the selected row; none
    /// without a selection or such a pending row.
    pub fn plan_pending_output_attach(&self, pending_idx: usize) -> (r: Option<
        OutputRefinementPlan<D, C>,
    >)
        requires
            self.wf(),
        ensures
            r is Some <==> (self.selection() is Some && pending_idx < self.outputs().len()),
            r matches Some(p) ==> attach_plan(
                p,
                self.rows(),
                self.outputs(),
                self.selection().unwrap() as int,
                pending_idx as int,
            ),
    {
        proof {
            self.lemma_wf_rows();
        }
        let sel = match self.selected_index() {
            Some(i) => i,
            None => {
                return None;
            },
        };
        if pending_idx >= self.pending_outputs().len() {
            return None;
        }
        let pending = &self.pending_outputs()[pending_idx];
        let import = OutputImport { source: pending.source.duplicate(), curves: pending.curves.clone() };
        let job = self.output_job_for_row(sel, OutputOperation::Replace { ordinal: 0, import });
        let mut jobs = Vec::new();
        jobs.push(job);
        Some(OutputRefinementPlan { purpose: OutputRefinementPurpose::AttachPending, summary: OutputImportSummary::empty(), jobs })
    }
}

impl<D: Clone, C, T> ModelFitState<D, C, T> {
    /// Plans detaching (keeping it pending) or removing the output of row
    /// `device_idx`; none when there is no such row or it has no output.
    pub fn plan_output_clear(&self, device_idx: usize, purpose: OutputRefinementPurpose) -> (r: Option<
        OutputRefinementPlan<D, C>,
    >)
        requires
            self.wf(),
            purpose == OutputRefinementPurpose::Detach || purpose == OutputRefinementPurpose::Remove,
        ensures
            r is Some <==> (device_idx < self.rows().len() && self.rows()[device_idx as int].science_spec().has_output()),
            r matches Some(p) ==> clear_plan(p, self.rows(), device_idx as int, purpose),
    {
        if device_idx >= self.devices().len() {
            return None;
        }
        if !self.devices()[device_idx].science().has_output_curves() {
            return None;
        }
        let keep_pending = match purpose {
            OutputRefinementPurpose::Detach => true,
            _ => false,
        };
        let job = self.output_job_for_row(device_idx, OutputOperation::Clear { keep_pending });
        let mut jobs = Vec::new();
        jobs.push(job);
        Some(OutputRefinementPlan { purpose, summary: OutputImportSummary::empty(), jobs })
    }
}

// ---------------------------------------------------------------------------
// Recovery after a failed worker
// ---------------------------------------------------------------------------

/// What a failed worker leaves: every file of the plan, to keep pending.
pub struct OutputRefinementRecovery<C> {
    pub purpose: OutputRefinementPurpose,
    pub pending: Vec<DeferredOutput<C>>,
    pub parse_issues: Vec<OutputIssue>,
}

pub struct OutputRecoveryReport {
    pub purpose: OutputRefinementPurpose,
    pub recovered: usize,
    pub parse_issues: Vec<OutputIssue>,
}

/// A deferred file as recovery keeps it: its place, provenance and reason.
pub open spec fn deferred_key<C>(d: DeferredOutput<C>) -> (usize, (OutputSource, PendingOutputReason)) {
    (d.ordinal, (d.import.source, d.reason))
}

/// The files of a job's replace operations, as "worker failed".
pub open spec fn replace_keys<C>(ops: Seq<OutputOperation<C>>) -> Seq<(usize, (OutputSource, PendingOutputReason))>
    decreases ops.len(),
{
    if ops.len() == 0 {
        Seq::empty()
    } else {
        replace_keys(ops.drop_last()) + match ops.last() {
            OutputOperation::Replace { ordinal, import } => seq![
                (ordinal, (import.source, PendingOutputReason::WorkerFailed)),
            ],
            OutputOperation::Clear { .. } => Seq::empty(),
        }
    }
}

pub open spec fn jobs_replace_keys<D, C>(jobs: Seq<OutputJob<D, C>>) -> Seq<(usize, (OutputSource, PendingOutputReason))>
    decreases jobs.len(),
{
    if jobs.len() == 0 {
        Seq::empty()
    } else {
        jobs_replace_keys(jobs.drop_last()) + replace_keys(jobs.last().operations@)
    }
}

fn duplicate_import<C: Clone>(import: &OutputImport<C>) -> (r: OutputImport<C>)
    ensures
        r.source == import.source,
        cloned(import.curves, r.curves),
{
    OutputImport { source: import.source.duplicate(), curves: import.curves.clone() }
}

/// Inserts `d` after every entry whose ordinal is at most its own.
fn insert_by_ordinal<C>(out: &mut Vec<DeferredOutput<C>>, d: DeferredOutput<C>)
    ensures
        final(out)@ == old(out)@.insert(
            count_first_le(old(out)@.map_values(|x: DeferredOutput<C>| deferred_key(x)), d.ordinal)
                as int,
            d,
        ),
        count_first_le(old(out)@.map_values(|x: DeferredOutput<C>| deferred_key(x)), d.ordinal)
            <= old(out)@.len(),
        final(out)@.map_values(|x: DeferredOutput<C>| deferred_key(x)) == old(out)@.map_values(
            |x: DeferredOutput<C>| deferred_key(x),
        ).insert(
            count_first_le(old(out)@.map_values(|x: DeferredOutput<C>| deferred_key(x)), d.ordinal)
                as int,
            deferred_key(d),
        ),
{
    let ghost keys = out@.map_values(|x: DeferredOutput<C>| deferred_key(x));
    let mut pos: usize = 0;
    let mut i: usize = 0;
    let n = out.len();
    while i < n
        invariant
            n == out@.len(),
            out@ == old(out)@,
            keys == out@.map_values(|x: DeferredOutput<C>| deferred_key(x)),
            i <= n,
            pos <= i,
            pos == count_first_le(keys.take(i as int), d.ordinal),
        decreases n - i,
    {
        proof {
            assert(keys.take(i + 1).drop_last() =~= keys.take(i as int));
        }
        if out[i].ordinal <= d.ordinal {
            pos = pos + 1;
        }
        i = i + 1;
    }
    proof {
        assert(keys.take(n as int) =~= keys);
    }
    out.insert(pos, d);
    proof {
        assert(out@.map_values(|x: DeferredOutput<C>| deferred_key(x)) =~= keys.insert(
            pos as int,
            deferred_key(d),
        ));
    }
}

/// `op` replaces with the file that `d` keeps as "worker failed", and `d`'s
/// curves are a clone of that file's curves.
pub open spec fn replace_source_of<C: Clone>(op: OutputOperation<C>, d: DeferredOutput<C>) -> bool {
    match op {
        OutputOperation::Replace { ordinal, import } => ordinal == d.ordinal && import.source
            == d.import.source && d.reason == PendingOutputReason::WorkerFailed && cloned(
            import.curves,
            d.import.curves,
        ),
        OutputOperation::Clear { .. } => false,
    }
}

/// A recovered file comes from the plan: it is a deferred file of the plan,
/// or the import of one of its replace operations (as "worker failed"), and
/// its curves are a clone of that file's curves.
pub open spec fn recovered_from<D, C: Clone>(plan: OutputRefinementPlan<D, C>, d: DeferredOutput<C>) -> bool {
    ||| exists|i: int|
        0 <= i < plan.summary.pending@.len() && deferred_key(#[trigger] plan.summary.pending@[i])
            == deferred_key(d) && cloned(plan.summary.pending@[i].import.curves, d.import.curves)
    ||| exists|j: int, q: int|
        0 <= j < plan.jobs@.len() && 0 <= q < plan.jobs@[j].operations@.len() && replace_source_of(
            #[trigger] plan.jobs@[j].operations@[q],
            d,
        )
}

proof fn lemma_insert_keeps_recovered<D, C: Clone>(
    plan: OutputRefinementPlan<D, C>,
    prev: Seq<DeferredOutput<C>>,
    next: Seq<DeferredOutput<C>>,
    d: DeferredOutput<C>,
    p: int,
)
    requires
        forall|k: int| 0 <= k < prev.len() ==> recovered_from(plan, #[trigger] prev[k]),
        recovered_from(plan, d),
        0 <= p <= prev.len(),
        next == prev.insert(p, d),
    ensures
        forall|k: int| 0 <= k < next.len() ==> recovered_from(plan, #[trigger] next[k]),
{
    assert forall|k: int| 0 <= k < next.len() implies recovered_from(plan, #[trigger] next[k]) by {
        if k < p {
            assert(next[k] == prev[k]);
        } else if k > p {
            assert(next[k] == prev[k - 1]);
        }
    }
}

impl<D, C: Clone> OutputRefinementPlan<D, C> {
    /// Everything a failed worker leaves pending: the deferred files and the
    /// file of every replace operation (as "worker failed"), stably ordered by
    /// dialog position; no science changes.
    pub fn panic_recovery(&self) -> (r: OutputRefinementRecovery<C>)
        ensures
            r.purpose == self.purpose,
            forall|k: int| 0 <= k < r.pending@.len() ==> recovered_from(*self, #[trigger] r.pending@[k]),
            r.pending@.map_values(|x: DeferredOutput<C>| deferred_key(x)) == stable_sort_by_first(
                self.summary.pending@.map_values(|x: DeferredOutput<C>| deferred_key(x))
                    + jobs_replace_keys(self.jobs@),
            ),
            issue_views(r.parse_issues@) == issue_views(self.summary.parse_issues@),
    {
        let ghost input = self.summary.pending@.map_values(|x: DeferredOutput<C>| deferred_key(x))
            + jobs_replace_keys(self.jobs@);
        let ghost np = self.summary.pending@.len() as int;
        let mut out: Vec<DeferredOutput<C>> = Vec::new();
        let ghost mut seen: int = 0;
        let mut i: usize = 0;
        proof {
            assert(input.take(0) =~= Seq::empty());
        }
        while i < self.summary.pending.len()
            invariant
                i <= self.summary.pending@.len(),
                np == self.summary.pending@.len(),
                input == self.summary.pending@.map_values(|x: DeferredOutput<C>| deferred_key(x))
                    + jobs_replace_keys(self.jobs@),
                out@.map_values(|x: DeferredOutput<C>| deferred_key(x)) == stable_sort_by_first(
                    input.take(i as int),
                ),
                forall|k: int| 0 <= k < out@.len() ==> recovered_from(*self, #[trigger] out@[k]),
            decreases self.summary.pending@.len() - i,
        {
            let d = &self.summary.pending[i];
            let copy = DeferredOutput { ordinal: d.ordinal, import: duplicate_import(&d.import), reason: d.reason };
            proof {
                assert(input.take(i + 1).drop_last() =~= input.take(i as int));
                assert(input.take(i + 1).last() == deferred_key(copy));
                assert(deferred_key(self.summary.pending@[i as int]) == deferred_key(copy));
                assert(recovered_from(*self, copy));
            }
            let ghost prev = out@;
            insert_by_ordinal(&mut out, copy);
            proof {
                lemma_insert_keeps_recovered(
                    *self,
                    prev,
                    out@,
                    copy,
                    count_first_le(prev.map_values(|x: DeferredOutput<C>| deferred_key(x)), copy.ordinal) as int,
                );
            }
            i = i + 1;
        }
        let mut j: usize = 0;
        let ghost mut done: int = np;
        proof {
            assert(self.jobs@.take(0) =~= Seq::<OutputJob<D, C>>::empty());
            assert(input.take(np) =~= self.summary.pending@.map_values(
                |x: DeferredOutput<C>| deferred_key(x),
            ) + jobs_replace_keys(self.jobs@.take(0)));
        }
        while j < self.jobs.len()
            invariant
                j <= self.jobs@.len(),
                i == self.summary.pending@.len(),
                np == self.summary.pending@.len(),
                input == self.summary.pending@.map_values(|x: DeferredOutput<C>| deferred_key(x))
                    + jobs_replace_keys(self.jobs@),
                done == np + jobs_replace_keys(self.jobs@.take(j as int)).len(),
                input.take(done) == self.summary.pending@.map_values(
                    |x: DeferredOutput<C>| deferred_key(x),
                ) + jobs_replace_keys(self.jobs@.take(j as int)),
                out@.map_values(|x: DeferredOutput<C>| deferred_key(x)) == stable_sort_by_first(
                    input.take(done),
                ),
                forall|k: int| 0 <= k < out@.len() ==> recovered_from(*self, #[trigger] out@[k]),
            decreases self.jobs@.len() - j,
        {
            let ops = &self.jobs[j].operations;
            let ghost before = jobs_replace_keys(self.jobs@.take(j as int));
            let ghost pkeys = self.summary.pending@.map_values(|x: DeferredOutput<C>| deferred_key(x));
            let mut q: usize = 0;
            proof {
                assert(ops@.take(0) =~= Seq::<OutputOperation<C>>::empty());
                assert(before + replace_keys(ops@.take(0)) =~= before);
            }
            while q < ops.len()
                invariant
                    q <= ops@.len(),
                    j < self.jobs@.len(),
                    ops@ == self.jobs@[j as int].operations@,
                    pkeys == self.summary.pending@.map_values(|x: DeferredOutput<C>| deferred_key(x)),
                    before == jobs_replace_keys(self.jobs@.take(j as int)),
                    input == pkeys + jobs_replace_keys(self.jobs@),
                    done == pkeys.len() + (before + replace_keys(ops@.take(q as int))).len(),
                    input.take(done) == pkeys + (before + replace_keys(ops@.take(q as int))),
                    out@.map_values(|x: DeferredOutput<C>| deferred_key(x)) == stable_sort_by_first(
                        input.take(done),
                    ),
                    forall|k: int| 0 <= k < out@.len() ==> recovered_from(*self, #[trigger] out@[k]),
                decreases ops@.len() - q,
            {
                proof {
                    lemma_replace_keys_prefix(ops@, q as int);
                    lemma_keys_prefix(self.jobs@, j as int, q + 1);
                    lemma_take_concat_prefix(
                        pkeys,
                        before + replace_keys(ops@.take(q + 1)),
                        jobs_replace_keys(self.jobs@),
                    );
                }
                match &ops[q] {
                    OutputOperation::Replace { ordinal, import } => {
                        let copy = DeferredOutput {
                            ordinal: *ordinal,
                            import: duplicate_import(import),
                            reason: PendingOutputReason::WorkerFailed,
                        };
                        proof {
                            assert(input.take(done + 1).drop_last() =~= input.take(done));
                            assert(input.take(done + 1) =~= pkeys + (before + replace_keys(
                                ops@.take(q + 1),
                            )));
                            assert(input.take(done + 1).last() == deferred_key(copy));
                        }
                        proof {
                            assert(self.jobs@[j as int].operations@[q as int] == ops@[q as int]);
                            assert(recovered_from(*self, copy));
                        }
                        let ghost prev = out@;
                        insert_by_ordinal(&mut out, copy);
                        proof {
                            lemma_insert_keeps_recovered(
                    *self,
                    prev,
                    out@,
                    copy,
                    count_first_le(prev.map_values(|x: DeferredOutput<C>| deferred_key(x)), copy.ordinal) as int,
                );
                            done = done + 1;
                        }
                    },
                    OutputOperation::Clear { .. } => {
                        proof {
                            assert(before + replace_keys(ops@.take(q + 1)) =~= before + replace_keys(
                                ops@.take(q as int),
                            ));
                        }
                    },
                }
                q = q + 1;
            }
            proof {
                assert(ops@.take(q as int) =~= ops@);
                assert(self.jobs@.take(j + 1).drop_last() =~= self.jobs@.take(j as int));
                assert(self.jobs@.take(j + 1).last() == self.jobs@[j as int]);
                assert(jobs_replace_keys(self.jobs@.take(j + 1)) =~= before + replace_keys(ops@));
            }
            j = j + 1;
        }
        proof {
            assert(self.jobs@.take(j as int) =~= self.jobs@);
            assert(input.take(done) =~= input);
        }
        OutputRefinementRecovery {
            purpose: self.purpose,
            pending: out,
            parse_issues: copy_issues(&self.summary.parse_issues),
        }
    }
}

proof fn lemma_replace_keys_prefix<C>(ops: Seq<OutputOperation<C>>, q: int)
    requires
        0 <= q < ops.len(),
    ensures
        replace_keys(ops.take(q + 1)) == replace_keys(ops.take(q)) + match ops[q] {
            OutputOperation::Replace { ordinal, import } => seq![
                (ordinal, (import.source, PendingOutputReason::WorkerFailed)),
            ],
            OutputOperation::Clear { .. } => Seq::<(usize, (OutputSource, PendingOutputReason))>::empty(),
        },
{
    assert(ops.take(q + 1).drop_last() =~= ops.take(q));
}

proof fn lemma_replace_keys_mono<C>(ops: Seq<OutputOperation<C>>, q: int)
    requires
        0 <= q <= ops.len(),
    ensures
        replace_keys(ops.take(q)).is_prefix_of(replace_keys(ops)),
    decreases ops.len() - q,
{
    if q == ops.len() {
        assert(ops.take(q) =~= ops);
        assert(replace_keys(ops) =~= replace_keys(ops).subrange(0, replace_keys(ops).len() as int));
    } else {
        lemma_replace_keys_mono(ops, q + 1);
        lemma_replace_keys_prefix(ops, q);
        let a = replace_keys(ops.take(q));
        let b = replace_keys(ops.take(q + 1));
        assert(a =~= b.subrange(0, a.len() as int));
        lemma_prefix_trans(a, b, replace_keys(ops));
    }
}

proof fn lemma_jobs_replace_keys_mono<D, C>(jobs: Seq<OutputJob<D, C>>, j: int)
    requires
        0 <= j <= jobs.len(),
    ensures
        jobs_replace_keys(jobs.take(j)).is_prefix_of(jobs_replace_keys(jobs)),
    decreases jobs.len() - j,
{
    if j == jobs.len() {
        assert(jobs.take(j) =~= jobs);
        assert(jobs_replace_keys(jobs) =~= jobs_replace_keys(jobs).subrange(
            0,
            jobs_replace_keys(jobs).len() as int,
        ));
    } else {
        lemma_jobs_replace_keys_mono(jobs, j + 1);
        assert(jobs.take(j + 1).drop_last() =~= jobs.take(j));
        let a = jobs_replace_keys(jobs.take(j));
        let b = jobs_replace_keys(jobs.take(j + 1));
        assert(a =~= b.subrange(0, a.len() as int));
        lemma_prefix_trans(a, b, jobs_replace_keys(jobs));
    }
}

/// The keys of the first `j` jobs and of the first `q` operations of job `j`
/// form a prefix of the keys of all jobs.
proof fn lemma_keys_prefix<D, C>(jobs: Seq<OutputJob<D, C>>, j: int, q: int)
    requires
        0 <= j < jobs.len(),
        0 <= q <= jobs[j].operations@.len(),
    ensures
        (jobs_replace_keys(jobs.take(j)) + replace_keys(jobs[j].operations@.take(q))).is_prefix_of(
            jobs_replace_keys(jobs),
        ),
{
    let ops = jobs[j].operations@;
    assert(jobs.take(j + 1).drop_last() =~= jobs.take(j));
    assert(jobs.take(j + 1).last() == jobs[j]);
    lemma_replace_keys_mono(ops, q);
    lemma_prefix_append(jobs_replace_keys(jobs.take(j)), replace_keys(ops.take(q)), replace_keys(ops));
    lemma_jobs_replace_keys_mono(jobs, j + 1);
    lemma_prefix_trans(
        jobs_replace_keys(jobs.take(j)) + replace_keys(ops.take(q)),
        jobs_replace_keys(jobs.take(j + 1)),
        jobs_replace_keys(jobs),
    );
}

fn copy_issues(issues: &Vec<OutputIssue>) -> (r: Vec<OutputIssue>)
    ensures
        issue_views(r@) == issue_views(issues@),
{
    let mut out: Vec<OutputIssue> = Vec::new();
    let mut i: usize = 0;
    while i < issues.len()
        invariant
            i <= issues@.len(),
            issue_views(out@) == issue_views(issues@.take(i as int)),
        decreases issues@.len() - i,
    {
        let x = OutputIssue { name: issues[i].name.clone(), message: issues[i].message.clone(), persist: issues[i].persist };
        proof {
            lemma_issue_views_push(out@, x);
            assert(issues@.take(i + 1) =~= issues@.take(i as int).push(issues@[i as int]));
            lemma_issue_views_push(issues@.take(i as int), issues@[i as int]);
        }
        out.push(x);
        i = i + 1;
    }
    proof {
        assert(issues@.take(i as int) =~= issues@);
    }
    out
}


pub open spec fn recovered_pending<C>(d: DeferredOutput<C>) -> PendingOutput<C> {
    import_pending(d.import, d.reason)
}

impl<D, C, T> ModelFitState<D, C, T> {
    /// Keeps every file of a failed worker pending and counts the pending rows
    /// that now stand for those files.
    pub fn recover_output_refinement(&mut self, recovery: OutputRefinementRecovery<C>) -> (r:
        OutputRecoveryReport)
        requires
            old(self).wf(),
        ensures
            final(self).wf(),
            final(self).outputs() == upserted_all(
                old(self).outputs(),
                recovery.pending@.map_values(|d: DeferredOutput<C>| recovered_pending(d)),
            ),
            r.recovered == count_named_by(
                final(self).outputs(),
                recovery.pending@.map_values(|d: DeferredOutput<C>| d.import.source@),
            ),
            r.purpose == recovery.purpose,
            r.parse_issues == recovery.parse_issues,
            final(self).rows() == old(self).rows(),
            final(self).dibls() == old(self).dibls(),
            final(self).selection() == old(self).selection(),
            final(self).model_index() == old(self).model_index(),
            final(self).next_id() == old(self).next_id(),
    {
        let OutputRefinementRecovery { purpose, pending, parse_issues } = recovery;
        let ghost all = pending@;
        let mut keys: Vec<Provenance> = Vec::new();
        let mut rest = pending;
        let ghost mut k: int = 0;
        proof {
            assert(all.take(0) =~= Seq::<DeferredOutput<C>>::empty());
        }
        while rest.len() > 0
            invariant
                self.wf(),
                0 <= k <= all.len(),
                rest@ =~= all.skip(k),
                keys@.map_values(|p: Provenance| p@) =~= all.take(k).map_values(
                    |d: DeferredOutput<C>| d.import.source@,
                ),
                self.outputs() == upserted_all(
                    old(self).outputs(),
                    all.take(k).map_values(|d: DeferredOutput<C>| recovered_pending(d)),
                ),
                self.rows() == old(self).rows(),
                self.dibls() == old(self).dibls(),
                self.selection() == old(self).selection(),
                self.model_index() == old(self).model_index(),
                self.next_id() == old(self).next_id(),
            decreases rest@.len(),
        {
            let d = rest.remove(0);
            proof {
                assert(d == all[k]);
                assert(all.take(k + 1) =~= all.take(k).push(all[k]));
                assert(all.take(k + 1).map_values(|d: DeferredOutput<C>| recovered_pending(d)).drop_last()
                    =~= all.take(k).map_values(|d: DeferredOutput<C>| recovered_pending(d)));
            }
            let DeferredOutput { ordinal: _, import, reason } = d;
            let OutputImport { source, curves } = import;
            let ghost before = keys@;
            keys.push(source.provenance().duplicate());
            proof {
                assert(keys@.map_values(|p: Provenance| p@) =~= before.map_values(|p: Provenance| p@).push(
                    source@,
                ));
                assert(all.take(k + 1).map_values(|d: DeferredOutput<C>| d.import.source@) =~= all.take(
                    k,
                ).map_values(|d: DeferredOutput<C>| d.import.source@).push(source@));
            }
            self.add_pending_output(source, curves, reason);
            proof {
                k = k + 1;
            }
        }
        proof {
            assert(all.take(k) =~= all);
        }
        let recovered = count_named(self.pending_outputs(), &keys);
        OutputRecoveryReport { purpose, recovered, parse_issues }
    }
}

// ---------------------------------------------------------------------------
// The worker's decisions
// ---------------------------------------------------------------------------

/// Why the science library refused to detach output curves.
#[derive(Clone, Copy, Debug, PartialEq, Eq, Structural)]
pub enum OutputDetachRefusal {
    NoOutput,
    RetainedDiblNotApplied,
}

pub open spec fn output_clear_error_text(e: OutputDetachRefusal) -> Seq<char> {
    match e {
        OutputDetachRefusal::NoOutput => NO_OUTPUT_ATTACHED_MESSAGE@,
        OutputDetachRefusal::RetainedDiblNotApplied => OUTPUT_CLEAR_DIBL_CONFLICT_MESSAGE@,
    }
}

/// The issue text for a refused detach.
pub fn output_clear_error_message(e: OutputDetachRefusal) -> (r: &'static str)
    ensures
        r@ == output_clear_error_text(e),
{
    match e {
        OutputDetachRefusal::NoOutput => NO_OUTPUT_ATTACHED_MESSAGE,
        OutputDetachRefusal::RetainedDiblNotApplied => OUTPUT_CLEAR_DIBL_CONFLICT_MESSAGE,
    }
}

/// The worker's progress through one job. The science library's calls are
/// made by the caller, who hands each reply to one of the methods below.
pub struct OutputJobRun<D, C> {
    pub token: DeviceToken,
    pub device_name: String,
    pub science: DeviceScience<D>,
    pub operations: Vec<OutputOperationResult<C>>,
    pub clear_pending: Option<PendingOutput<C>>,
    pub changed: bool,
    pub clear_error: Option<String>,
    /// The ordinal of the import that last left output attached in this job.
    pub current_generation: Option<usize>,
}

/// What an accepted replacement displaced: the previous source when it names
/// another file, with the curves the library handed back, ranked by the
/// generation current in the job.
pub open spec fn displaced_of<C>(
    previous: Option<OutputSource>,
    incoming: OutputSource,
    generation: Option<usize>,
    curves: C,
) -> Option<RankedPendingOutput<C>> {
    match previous {
        Some(o) => if same_named(o@, incoming@) {
            None
        } else {
            Some(
                RankedPendingOutput {
                    generation,
                    pending: PendingOutput { source: o, curves, reason: PendingOutputReason::Detached },
                },
            )
        },
        None => None,
    }
}

impl<D, C> OutputJobRun<D, C> {
    /// Starts a job: nothing done yet; the operations come back to be run.
    pub fn start(job: OutputJob<D, C>) -> (r: (Self, Vec<OutputOperation<C>>))
        ensures
            r.0.token == job.token,
            r.0.device_name == job.device_name,
            r.0.science == job.science,
            r.0.operations@.len() == 0,
            r.0.clear_pending is None,
            !r.0.changed,
            r.0.clear_error is None,
            r.0.current_generation is None,
            r.1 == job.operations,
    {
        let OutputJob { token, device_name, science, operations } = job;
        (
            OutputJobRun {
                token,
                device_name,
                science,
                operations: Vec::new(),
                clear_pending: None,
                changed: false,
                clear_error: None,
                current_generation: None,
            },
            operations,
        )
    }

    /// A refused detach ends the job.
    pub fn accepts_more(&self) -> (r: bool)
        ensures
            r == self.clear_error is None,
    {
        self.clear_error.is_none()
    }

    /// The library attached the curves of `import`: `device` is the device
    /// after the replacement, `has_output_curves` whether it still owns output
    /// curves, `no_fit` whether they gave no fit, and `displaced_curves` the
    /// curves it replaced.
    pub fn replace_applied(
        self,
        ordinal: usize,
        import: OutputImport<C>,
        device: D,
        has_output_curves: bool,
        no_fit: bool,
        displaced_curves: C,
    ) -> (r: Self)
        requires
            self.science.wf(),
        ensures
            r.science.wf(),
            r.science.device_spec() == device,
            r.science.name() == self.science.name(),
            r.science.stem() == self.science.stem(),
            r.science.has_output() == has_output_curves,
            r.science.has_second() == self.science.has_second(),
            r.science.primary() == self.science.primary(),
            r.science.dibl() == self.science.dibl(),
            r.science.output_src() == if has_output_curves {
                Some(import.source)
            } else {
                None::<OutputSource>
            },
            r.operations@ == self.operations@.push(
                OutputOperationResult::Applied {
                    ordinal,
                    import,
                    no_fit,
                    displaced: displaced_of(
                        self.science.output_src(),
                        import.source,
                        self.current_generation,
                        displaced_curves,
                    ),
                },
            ),
            r.current_generation == if has_output_curves {
                Some(ordinal)
            } else {
                None::<usize>
            },
            r.changed,
            r.token == self.token,
            r.device_name == self.device_name,
            r.clear_pending == self.clear_pending,
            r.clear_error == self.clear_error,
    {
        let OutputJobRun {
            token,
            device_name,
            science,
            mut operations,
            clear_pending,
            changed: _,
            clear_error,
            current_generation,
        } = self;
        let (science, previous) = science.with_output_replaced(
            import.source.duplicate(),
            device,
            has_output_curves,
        );
        let displaced = match previous {
            Some(source) => Some(
                RankedPendingOutput {
                    generation: current_generation,
                    pending: PendingOutput {
                        source,
                        curves: displaced_curves,
                        reason: PendingOutputReason::Detached,
                    },
                },
            ),
            None => None,
        };
        operations.push(OutputOperationResult::Applied { ordinal, import, no_fit, displaced });
        let current_generation = if has_output_curves {
            Some(ordinal)
        } else {
            None
        };
        OutputJobRun {
            token,
            device_name,
            science,
            operations,
            clear_pending,
            changed: true,
            clear_error,
            current_generation,
        }
    }

    /// The retained DIBL measurement refused the curves; `import` carries the
    /// curves the library handed back.
    pub fn replace_refused(self, ordinal: usize, import: OutputImport<C>) -> (r: Self)
        ensures
            r.operations@ == self.operations@.push(
                OutputOperationResult::DiblConflict { ordinal, import },
            ),
            r.science == self.science,
            r.current_generation == self.current_generation,
            r.changed == self.changed,
            r.token == self.token,
            r.device_name == self.device_name,
            r.clear_pending == self.clear_pending,
            r.clear_error == self.clear_error,
    {
        let mut run = self;
        run.operations.push(OutputOperationResult::DiblConflict { ordinal, import });
        run
    }

    /// The library detached the output curves: `device` is the device without
    /// them and `curves` the detached curves, kept pending when asked.
    pub fn clear_applied(self, keep_pending: bool, device: D, curves: C) -> (r: Self)
        requires
            self.science.wf(),
            self.science.has_output(),
        ensures
            r.science.wf(),
            r.science.device_spec() == device,
            r.science.name() == self.science.name(),
            r.science.stem() == self.science.stem(),
            !r.science.has_output(),
            r.science.has_second() == self.science.has_second(),
            r.science.primary() == self.science.primary(),
            r.science.dibl() == self.science.dibl(),
            r.science.output_src() is None,
            r.clear_pending == if keep_pending {
                Some(
                    PendingOutput {
                        source: self.science.output_src().unwrap(),
                        curves,
                        reason: PendingOutputReason::Detached,
                    },
                )
            } else {
                self.clear_pending
            },
            r.changed,
            r.operations == self.operations,
            r.current_generation == self.current_generation,
            r.token == self.token,
            r.device_name == self.device_name,
            r.clear_error == self.clear_error,
    {
        let OutputJobRun {
            token,
            device_name,
            science,
            operations,
            clear_pending,
            changed: _,
            clear_error,
            current_generation,
        } = self;
        let (science, source) = science.with_output_detached(device);
        let clear_pending = if keep_pending {
            Some(PendingOutput { source, curves, reason: PendingOutputReason::Detached })
        } else {
            clear_pending
        };
        OutputJobRun {
            token,
            device_name,
            science,
            operations,
            clear_pending,
            changed: true,
            clear_error,
            current_generation,
        }
    }

    /// The library refused the detach; the job stops here.
    pub fn clear_refused(self, refusal: OutputDetachRefusal) -> (r: Self)
        ensures
            r.clear_error matches Some(m) && m@ == output_clear_error_text(refusal),
            r.science == self.science,
            r.operations == self.operations,
            r.clear_pending == self.clear_pending,
            r.changed == self.changed,
            r.current_generation == self.current_generation,
            r.token == self.token,
            r.device_name == self.device_name,
    {
        let mut run = self;
        run.clear_error = Some(owned(output_clear_error_message(refusal)));
        run
    }

    /// The job's result.
    pub fn finish(self) -> (r: OutputJobResult<D, C>)
        ensures
            r.token == self.token,
            r.device_name == self.device_name,
            r.science == self.science,
            r.operations == self.operations,
            r.clear_pending == self.clear_pending,
            r.changed == self.changed,
            r.clear_error == self.clear_error,
    {
        OutputJobResult {
            token: self.token,
            device_name: self.device_name,
            science: self.science,
            operations: self.operations,
            clear_pending: self.clear_pending,
            changed: self.changed,
            clear_error: self.clear_error,
        }
    }
}

// ---------------------------------------------------------------------------
// Laws of the guarded commit
// ---------------------------------------------------------------------------

/// A result whose every job finds its row gone or changed changes no row,
/// attaches nothing, reports no success, and keeps every file it carried
/// pending as "device changed".
pub proof fn law_stale_results_change_no_row<D, X>(rows: Seq<DeviceEntry<D>>, jobs: Seq<OutputJobResult<D, X>>)
    requires
        forall|j: int| 0 <= j < jobs.len() ==> !token_live(rows, (#[trigger] jobs[j]).token),
    ensures
        rows_after_jobs(rows, jobs) == rows,
        !jobs_succeeded(rows, jobs),
        jobs_count(rows, jobs, |ops: Seq<OutputOperationResult<X>>| applied_count(ops)) == 0,
        forall|k: int|
            0 <= k < jobs_effects(rows, jobs).len() ==> (#[trigger] jobs_effects(rows, jobs)[k] matches PendingEffect::FreshPending { pending, .. } && pending.reason == PendingOutputReason::DeviceChanged),
    decreases jobs.len(),
{
    if jobs.len() > 0 {
        let prev = jobs.drop_last();
        assert forall|j: int| 0 <= j < prev.len() implies !token_live(rows, (#[trigger] prev[j]).token) by {
            assert(prev[j] == jobs[j]);
        }
        law_stale_results_change_no_row(rows, prev);
        let job = jobs.last();
        assert(!token_live(rows, job.token));
        let e = job.operations@.map_values(|op: OutputOperationResult<X>| stale_effect(op));
        let before = jobs_effects(rows, prev);
        assert forall|k: int| 0 <= k < jobs_effects(rows, jobs).len() implies (#[trigger] jobs_effects(rows, jobs)[k] matches PendingEffect::FreshPending { pending, .. } && pending.reason == PendingOutputReason::DeviceChanged) by {
            if k >= before.len() {
                assert(jobs_effects(rows, jobs)[k] == e[k - before.len()]);
            } else {
                assert(jobs_effects(rows, jobs)[k] == before[k]);
            }
        }
    }
}

/// A commit touches no row whose identity no job names.
pub proof fn law_commit_keeps_unnamed_rows<D, X>(rows: Seq<DeviceEntry<D>>, jobs: Seq<OutputJobResult<D, X>>, i: int)
    requires
        0 <= i < rows.len(),
        forall|j: int| 0 <= j < jobs.len() ==> (#[trigger] jobs[j]).token.id_val() != rows[i].id_val(),
    ensures
        rows_after_jobs(rows, jobs).len() == rows.len(),
        rows_after_jobs(rows, jobs)[i] == rows[i],
    decreases jobs.len(),
{
    if jobs.len() > 0 {
        let prev_jobs = jobs.drop_last();
        assert forall|j: int| 0 <= j < prev_jobs.len() implies (#[trigger] prev_jobs[j]).token.id_val() != rows[i].id_val() by {
            assert(prev_jobs[j] == jobs[j]);
        }
        law_commit_keeps_unnamed_rows(rows, prev_jobs, i);
        let prev = rows_after_jobs(rows, prev_jobs);
        let job = jobs.last();
        if job_applies(prev, job) && job.changed {
            let w = live_index(prev, job.token);
            assert(prev[w].id_val() == job.token.id_val());
            prev[w].lemma_with_science_keeps_identity(job.science);
            assert(w != i);
        }
    }
}

} // verus!
