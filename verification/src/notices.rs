//! What the user is told when a refinement finishes or fails: the toast's
//! level and text, and which issues stay in the page's issue list.

use vstd::prelude::*;
use crate::dibl_refinement::{
    fit_views, issue_views as dibl_issue_views, DiblCommitReport, DiblIssue, DiblIssueKind,
    DiblRefinementMode, DiblRefinementPurpose,
};
use crate::issues::{issue_id, IngestIssues, IssueView};
use crate::output_refinement::{OutputCommitReport, OutputIssue, OutputRefinementPurpose};
use crate::text::{decimal, owned, push_decimal, push_str};

verus! {

#[derive(Clone, Copy, Debug, PartialEq, Eq, Structural)]
pub enum ToastLevel {
    Info,
    Success,
    Warning,
    Error,
}

pub const DIBL_NO_MATCH_MESSAGE: &'static str = "No device matches this DIBL measurement.";

pub const DIBL_AMBIGUOUS_MESSAGE: &'static str = "Several devices match this DIBL measurement.";

pub const ATTACHED_PENDING_OUTPUT_MESSAGE: &'static str = "Attached pending output.";

pub const OUTPUT_MOVED_TO_PENDING_MESSAGE: &'static str = "Output moved to pending.";

pub const REMOVED_OUTPUT_MESSAGE: &'static str = "Removed attached output.";

/// The text of a DIBL completion toast. A single fit is rendered by the
/// caller, who formats its measured values.
pub enum DiblToastText<A> {
    Fitted { name: String, second_vds: A, at: A, displaced: bool },
    Plain(String),
}

pub enum DiblToastTextView<A> {
    Fitted { name: Seq<char>, second_vds: A, at: A, displaced: bool },
    Plain(Seq<char>),
}

impl<A> View for DiblToastText<A> {
    type V = DiblToastTextView<A>;

    open spec fn view(&self) -> DiblToastTextView<A> {
        match self {
            DiblToastText::Fitted { name, second_vds, at, displaced } => DiblToastTextView::Fitted {
                name: name@,
                second_vds: *second_vds,
                at: *at,
                displaced: *displaced,
            },
            DiblToastText::Plain(s) => DiblToastTextView::Plain(s@),
        }
    }
}

/// The message of the first issue, or `fallback` without one.
pub open spec fn first_message<K>(issues: Seq<(Seq<char>, Seq<char>, K)>, fallback: Seq<char>) -> Seq<char> {
    if issues.len() > 0 {
        issues[0].1
    } else {
        fallback
    }
}

/// Number of issues of kind `kind`.
pub open spec fn count_kind(issues: Seq<(Seq<char>, Seq<char>, DiblIssueKind)>, kind: DiblIssueKind) -> nat
    decreases issues.len(),
{
    if issues.len() == 0 {
        0
    } else {
        count_kind(issues.drop_last(), kind) + if issues.last().2 == kind {
            1nat
        } else {
            0nat
        }
    }
}

/// The one-line account of a DIBL batch.
pub open spec fn dibl_batch_summary(
    fitted: nat,
    displaced: nat,
    no_fit: nat,
    unmatched: nat,
    ambiguous: nat,
    parse: nat,
    stale: nat,
    commit: nat,
) -> Seq<char> {
    "DIBL batch: "@ + decimal(fitted) + " fitted, "@ + decimal(displaced) + " displaced, "@
        + decimal(no_fit) + " no fit, "@ + decimal(unmatched) + " unmatched, "@ + decimal(ambiguous)
        + " ambiguous, "@ + decimal(parse) + " parse error(s), "@ + decimal(stale) + " stale, "@
        + decimal(commit) + " commit error(s)."@
}

/// What a finished DIBL refinement tells the user: a clear action reports its
/// outcome; one chosen file reports its fit, or why there is none; a batch
/// reports its counts, and its first issue when anything went wrong.
pub open spec fn dibl_toast<A>(r: DiblCommitReport<A>) -> (ToastLevel, DiblToastTextView<A>) {
    let issues = dibl_issue_views(r.issues@);
    let fits = fit_views(r.fitted@);
    match r.purpose {
        DiblRefinementPurpose::AttachPending => if r.action_succeeded {
            (
                ToastLevel::Success,
                DiblToastTextView::Plain(
                    "Attached pending DIBL."@ + if r.displaced > 0 {
                        " Previous DIBL measurement moved to pending."@
                    } else {
                        ""@
                    },
                ),
            )
        } else {
            (
                ToastLevel::Warning,
                DiblToastTextView::Plain(first_message(issues, "Could not attach the pending DIBL."@)),
            )
        },
        DiblRefinementPurpose::Detach => if r.action_succeeded {
            (ToastLevel::Info, DiblToastTextView::Plain("DIBL measurement moved to pending."@))
        } else {
            (
                ToastLevel::Warning,
                DiblToastTextView::Plain(
                    first_message(issues, "Could not detach the attached DIBL measurement."@),
                ),
            )
        },
        DiblRefinementPurpose::Remove => if r.action_succeeded {
            (ToastLevel::Info, DiblToastTextView::Plain("Removed attached DIBL measurement."@))
        } else {
            (
                ToastLevel::Warning,
                DiblToastTextView::Plain(
                    first_message(issues, "Could not remove the attached DIBL measurement."@),
                ),
            )
        },
        DiblRefinementPurpose::Import => if r.mode == DiblRefinementMode::Single {
            if fits.len() > 0 {
                (
                    ToastLevel::Success,
                    DiblToastTextView::Fitted {
                        name: fits[0].0,
                        second_vds: fits[0].1,
                        at: fits[0].2,
                        displaced: r.displaced > 0,
                    },
                )
            } else if issues.len() > 0 {
                if issues[0].2 == DiblIssueKind::Parse {
                    (ToastLevel::Error, DiblToastTextView::Plain(issues[0].1))
                } else {
                    (
                        ToastLevel::Warning,
                        DiblToastTextView::Plain(
                            "Loaded "@ + issues[0].0 + " but no DIBL fit: "@ + issues[0].1
                                + " Kept as pending."@,
                        ),
                    )
                }
            } else if r.unmatched > 0 {
                (ToastLevel::Warning, DiblToastTextView::Plain(DIBL_NO_MATCH_MESSAGE@ + " Kept as pending."@))
            } else if r.ambiguous > 0 {
                (ToastLevel::Warning, DiblToastTextView::Plain(DIBL_AMBIGUOUS_MESSAGE@ + " Kept as pending."@))
            } else {
                (ToastLevel::Warning, DiblToastTextView::Plain("No DIBL result was produced."@))
            }
        } else {
            let no_fit = count_kind(issues, DiblIssueKind::NoFit);
            let parse = count_kind(issues, DiblIssueKind::Parse);
            let summary = dibl_batch_summary(
                fits.len(),
                r.displaced as nat,
                no_fit,
                r.unmatched as nat,
                r.ambiguous as nat,
                parse,
                r.stale as nat,
                r.commit_errors as nat,
            );
            let clean = fits.len() > 0 && no_fit == 0 && parse == 0 && r.unmatched == 0
                && r.ambiguous == 0 && r.stale == 0 && r.commit_errors == 0;
            if clean {
                (ToastLevel::Success, DiblToastTextView::Plain(summary))
            } else if issues.len() > 0 {
                (ToastLevel::Warning, DiblToastTextView::Plain(summary + " First issue: "@ + issues[0].1))
            } else {
                (ToastLevel::Warning, DiblToastTextView::Plain(summary))
            }
        },
    }
}

/// The message of the first issue, or `fallback`.
fn first_dibl_message(issues: &Vec<DiblIssue>, fallback: &str) -> (r: String)
    ensures
        r@ == first_message(dibl_issue_views(issues@), fallback@),
{
    if issues.len() > 0 {
        issues[0].message.clone()
    } else {
        owned(fallback)
    }
}

/// Counts the issues of `kind`.
fn count_dibl_kind(issues: &Vec<DiblIssue>, kind: DiblIssueKind) -> (r: u64)
    ensures
        r == count_kind(dibl_issue_views(issues@), kind),
{
    let ghost v = dibl_issue_views(issues@);
    let mut n: u64 = 0;
    let mut i: usize = 0;
    while i < issues.len()
        invariant
            i <= issues@.len(),
            v == dibl_issue_views(issues@),
            n == count_kind(v.take(i as int), kind),
            n <= i,
        decreases issues@.len() - i,
    {
        proof {
            assert(v.take(i + 1).drop_last() =~= v.take(i as int));
        }
        if issues[i].kind == kind {
            n = n + 1;
        }
        i = i + 1;
    }
    proof {
        assert(v.take(i as int) =~= v);
    }
    n
}

/// Builds the toast for a finished DIBL refinement.
pub fn dibl_completion_toast<A: Copy>(report: &DiblCommitReport<A>) -> (r: (ToastLevel, DiblToastText<A>))
    ensures
        (r.0, r.1@) == dibl_toast(*report),
{
    let ghost issues = dibl_issue_views(report.issues@);
    match report.purpose {
        DiblRefinementPurpose::AttachPending => {
            if report.action_succeeded {
                let mut text = owned("Attached pending DIBL.");
                if report.displaced > 0 {
                    push_str(&mut text, " Previous DIBL measurement moved to pending.");
                } else {
                    proof {
                        assert(text@ + ""@ =~= text@) by {
                            reveal_strlit("");
                        }
                    }
                }
                return (ToastLevel::Success, DiblToastText::Plain(text));
            }
            return (
                ToastLevel::Warning,
                DiblToastText::Plain(first_dibl_message(&report.issues, "Could not attach the pending DIBL.")),
            );
        },
        DiblRefinementPurpose::Detach => {
            if report.action_succeeded {
                return (ToastLevel::Info, DiblToastText::Plain(owned("DIBL measurement moved to pending.")));
            }
            return (
                ToastLevel::Warning,
                DiblToastText::Plain(
                    first_dibl_message(&report.issues, "Could not detach the attached DIBL measurement."),
                ),
            );
        },
        DiblRefinementPurpose::Remove => {
            if report.action_succeeded {
                return (ToastLevel::Info, DiblToastText::Plain(owned("Removed attached DIBL measurement.")));
            }
            return (
                ToastLevel::Warning,
                DiblToastText::Plain(
                    first_dibl_message(&report.issues, "Could not remove the attached DIBL measurement."),
                ),
            );
        },
        DiblRefinementPurpose::Import => {},
    }
    if report.mode == DiblRefinementMode::Single {
        if report.fitted.len() > 0 {
            let fit = &report.fitted[0];
            return (
                ToastLevel::Success,
                DiblToastText::Fitted {
                    name: fit.name.clone(),
                    second_vds: fit.second_vds,
                    at: fit.at,
                    displaced: report.displaced > 0,
                },
            );
        }
        if report.issues.len() > 0 {
            let issue = &report.issues[0];
            if issue.kind == DiblIssueKind::Parse {
                return (ToastLevel::Error, DiblToastText::Plain(issue.message.clone()));
            }
            let mut text = owned("Loaded ");
            push_str(&mut text, issue.name.as_str());
            push_str(&mut text, " but no DIBL fit: ");
            push_str(&mut text, issue.message.as_str());
            push_str(&mut text, " Kept as pending.");
            return (ToastLevel::Warning, DiblToastText::Plain(text));
        }
        if report.unmatched > 0 {
            let mut text = owned(DIBL_NO_MATCH_MESSAGE);
            push_str(&mut text, " Kept as pending.");
            return (ToastLevel::Warning, DiblToastText::Plain(text));
        }
        if report.ambiguous > 0 {
            let mut text = owned(DIBL_AMBIGUOUS_MESSAGE);
            push_str(&mut text, " Kept as pending.");
            return (ToastLevel::Warning, DiblToastText::Plain(text));
        }
        return (ToastLevel::Warning, DiblToastText::Plain(owned("No DIBL result was produced.")));
    }
    let no_fit = count_dibl_kind(&report.issues, DiblIssueKind::NoFit);
    let parse = count_dibl_kind(&report.issues, DiblIssueKind::Parse);
    let mut text = owned("DIBL batch: ");
    push_decimal(&mut text, report.fitted.len() as u64);
    push_str(&mut text, " fitted, ");
    push_decimal(&mut text, report.displaced as u64);
    push_str(&mut text, " displaced, ");
    push_decimal(&mut text, no_fit);
    push_str(&mut text, " no fit, ");
    push_decimal(&mut text, report.unmatched as u64);
    push_str(&mut text, " unmatched, ");
    push_decimal(&mut text, report.ambiguous as u64);
    push_str(&mut text, " ambiguous, ");
    push_decimal(&mut text, parse);
    push_str(&mut text, " parse error(s), ");
    push_decimal(&mut text, report.stale as u64);
    push_str(&mut text, " stale, ");
    push_decimal(&mut text, report.commit_errors as u64);
    push_str(&mut text, " commit error(s).");
    let clean = report.fitted.len() > 0 && no_fit == 0 && parse == 0 && report.unmatched == 0
        && report.ambiguous == 0 && report.stale == 0 && report.commit_errors == 0;
    if clean {
        return (ToastLevel::Success, DiblToastText::Plain(text));
    }
    if report.issues.len() > 0 {
        push_str(&mut text, " First issue: ");
        push_str(&mut text, report.issues[0].message.as_str());
    }
    (ToastLevel::Warning, DiblToastText::Plain(text))
}

/// The text of an output completion toast: the import summary, which the
/// caller renders from the report's counts, or a message.
pub enum OutputToastText {
    Summary,
    Plain(String),
}

pub enum OutputToastTextView {
    Summary,
    Plain(Seq<char>),
}

impl View for OutputToastText {
    type V = OutputToastTextView;

    open spec fn view(&self) -> OutputToastTextView {
        match self {
            OutputToastText::Summary => OutputToastTextView::Summary,
            OutputToastText::Plain(s) => OutputToastTextView::Plain(s@),
        }
    }
}

/// What a finished output refinement tells the user: an import reports its
/// summary, as a success only when everything attached cleanly; a clear or an
/// attachment reports its outcome, or its first issue.
pub open spec fn output_toast(r: OutputCommitReport) -> (ToastLevel, OutputToastTextView) {
    let issues = crate::output_refinement::issue_views(r.issues@);
    match r.purpose {
        OutputRefinementPurpose::Import => if r.attached > 0 && r.unfittable == 0 && r.unmatched == 0
            && r.ambiguous == 0 && issues.len() == 0 {
            (ToastLevel::Success, OutputToastTextView::Summary)
        } else {
            (ToastLevel::Warning, OutputToastTextView::Summary)
        },
        OutputRefinementPurpose::AttachPending => if r.action_succeeded {
            if r.unfittable > 0 {
                (
                    ToastLevel::Warning,
                    OutputToastTextView::Plain("Attached pending output, but no output fit was extracted."@),
                )
            } else {
                (ToastLevel::Success, OutputToastTextView::Plain(ATTACHED_PENDING_OUTPUT_MESSAGE@))
            }
        } else {
            (ToastLevel::Warning, OutputToastTextView::Plain(first_message(issues, "Could not attach the pending output."@)))
        },
        OutputRefinementPurpose::Detach => if r.action_succeeded {
            (ToastLevel::Info, OutputToastTextView::Plain(OUTPUT_MOVED_TO_PENDING_MESSAGE@))
        } else {
            (ToastLevel::Warning, OutputToastTextView::Plain(first_message(issues, "Could not detach the output."@)))
        },
        OutputRefinementPurpose::Remove => if r.action_succeeded {
            (ToastLevel::Info, OutputToastTextView::Plain(REMOVED_OUTPUT_MESSAGE@))
        } else {
            (ToastLevel::Warning, OutputToastTextView::Plain(first_message(issues, "Could not remove the output."@)))
        },
    }
}

fn first_output_message(issues: &Vec<OutputIssue>, fallback: &str) -> (r: String)
    ensures
        r@ == first_message(crate::output_refinement::issue_views(issues@), fallback@),
{
    if issues.len() > 0 {
        issues[0].message.clone()
    } else {
        owned(fallback)
    }
}

/// The summary an output import reports: every count, and when nothing
/// attached, the first error so the user learns why.
pub open spec fn output_summary_text(r: OutputCommitReport) -> Seq<char> {
    let issues = crate::output_refinement::issue_views(r.issues@);
    "Output: "@ + decimal(r.attached as nat) + " attached, "@ + decimal(r.unfittable as nat)
        + " unfittable, "@ + decimal(r.unmatched as nat) + " unmatched, "@ + decimal(
        r.ambiguous as nat,
    ) + " ambiguous, "@ + decimal(r.displaced as nat) + " displaced, "@ + decimal(issues.len())
        + " error(s)."@ + if r.attached == 0 && issues.len() > 0 {
        " First error: "@ + issues[0].1
    } else {
        Seq::empty()
    }
}

/// Renders the summary of an output import.
pub fn output_import_summary(report: &OutputCommitReport) -> (r: String)
    ensures
        r@ == output_summary_text(*report),
{
    let mut text = owned("Output: ");
    push_decimal(&mut text, report.attached as u64);
    push_str(&mut text, " attached, ");
    push_decimal(&mut text, report.unfittable as u64);
    push_str(&mut text, " unfittable, ");
    push_decimal(&mut text, report.unmatched as u64);
    push_str(&mut text, " unmatched, ");
    push_decimal(&mut text, report.ambiguous as u64);
    push_str(&mut text, " ambiguous, ");
    push_decimal(&mut text, report.displaced as u64);
    push_str(&mut text, " displaced, ");
    push_decimal(&mut text, report.issues.len() as u64);
    push_str(&mut text, " error(s).");
    let ghost base = text@;
    if report.attached == 0 && report.issues.len() > 0 {
        push_str(&mut text, " First error: ");
        push_str(&mut text, report.issues[0].message.as_str());
    } else {
        assert(base + Seq::<char>::empty() =~= base);
    }
    text
}

/// Builds the toast for a finished output refinement.
pub fn output_completion_toast(report: &OutputCommitReport) -> (r: (ToastLevel, OutputToastText))
    ensures
        (r.0, r.1@) == output_toast(*report),
{
    match report.purpose {
        OutputRefinementPurpose::Import => {
            if report.attached > 0 && report.unfittable == 0 && report.unmatched == 0
                && report.ambiguous == 0 && report.issues.len() == 0 {
                (ToastLevel::Success, OutputToastText::Summary)
            } else {
                (ToastLevel::Warning, OutputToastText::Summary)
            }
        },
        OutputRefinementPurpose::AttachPending => {
            if report.action_succeeded {
                if report.unfittable > 0 {
                    (
                        ToastLevel::Warning,
                        OutputToastText::Plain(owned("Attached pending output, but no output fit was extracted.")),
                    )
                } else {
                    (ToastLevel::Success, OutputToastText::Plain(owned(ATTACHED_PENDING_OUTPUT_MESSAGE)))
                }
            } else {
                (
                    ToastLevel::Warning,
                    OutputToastText::Plain(first_output_message(&report.issues, "Could not attach the pending output.")),
                )
            }
        },
        OutputRefinementPurpose::Detach => {
            if report.action_succeeded {
                (ToastLevel::Info, OutputToastText::Plain(owned(OUTPUT_MOVED_TO_PENDING_MESSAGE)))
            } else {
                (
                    ToastLevel::Warning,
                    OutputToastText::Plain(first_output_message(&report.issues, "Could not detach the output.")),
                )
            }
        },
        OutputRefinementPurpose::Remove => {
            if report.action_succeeded {
                (ToastLevel::Info, OutputToastText::Plain(owned(REMOVED_OUTPUT_MESSAGE)))
            } else {
                (
                    ToastLevel::Warning,
                    OutputToastText::Plain(first_output_message(&report.issues, "Could not remove the output.")),
                )
            }
        },
    }
}

// ---------------------------------------------------------------------------
// Issues that stay in the list
// ---------------------------------------------------------------------------

/// The issue rows that recording `items` in turn appends, numbered from `n`.
pub open spec fn recorded_rows(items: Seq<(Seq<char>, Seq<char>)>, n: nat) -> Seq<IssueView>
    decreases items.len(),
{
    if items.len() == 0 {
        Seq::empty()
    } else {
        recorded_rows(items.drop_last(), n).push(
            IssueView {
                id: issue_id((n + items.len() - 1) as nat),
                name: items.last().0,
                message: items.last().1,
            },
        )
    }
}

/// The name and message of the output issues that persist, in order.
pub open spec fn persistent_output_issues(issues: Seq<(Seq<char>, Seq<char>, bool)>) -> Seq<(Seq<char>, Seq<char>)>
    decreases issues.len(),
{
    if issues.len() == 0 {
        Seq::empty()
    } else {
        persistent_output_issues(issues.drop_last()) + if issues.last().2 {
            seq![(issues.last().0, issues.last().1)]
        } else {
            Seq::empty()
        }
    }
}

/// The name and message of the DIBL issues that persist (parse errors and
/// failed fits), in order.
pub open spec fn persistent_dibl_issues(issues: Seq<(Seq<char>, Seq<char>, DiblIssueKind)>) -> Seq<(Seq<char>, Seq<char>)>
    decreases issues.len(),
{
    if issues.len() == 0 {
        Seq::empty()
    } else {
        persistent_dibl_issues(issues.drop_last()) + if issues.last().2 == DiblIssueKind::Parse
            || issues.last().2 == DiblIssueKind::NoFit {
            seq![(issues.last().0, issues.last().1)]
        } else {
            Seq::empty()
        }
    }
}

proof fn lemma_persistent_output_bounded(issues: Seq<(Seq<char>, Seq<char>, bool)>)
    ensures
        persistent_output_issues(issues).len() <= issues.len(),
    decreases issues.len(),
{
    if issues.len() > 0 {
        lemma_persistent_output_bounded(issues.drop_last());
    }
}

proof fn lemma_persistent_dibl_bounded(issues: Seq<(Seq<char>, Seq<char>, DiblIssueKind)>)
    ensures
        persistent_dibl_issues(issues).len() <= issues.len(),
    decreases issues.len(),
{
    if issues.len() > 0 {
        lemma_persistent_dibl_bounded(issues.drop_last());
    }
}

proof fn lemma_recorded_rows_push(items: Seq<(Seq<char>, Seq<char>)>, n: nat, x: (Seq<char>, Seq<char>))
    ensures
        recorded_rows(items.push(x), n) == recorded_rows(items, n).push(
            IssueView { id: issue_id(n + items.len()), name: x.0, message: x.1 },
        ),
{
    assert(items.push(x).drop_last() =~= items);
}

/// Records the output issues that persist into the issue list.
pub fn record_output_issues(list: &mut IngestIssues, issues: Vec<OutputIssue>)
    requires
        old(list).wf(),
        old(list).next_number() + issues@.len() < u64::MAX,
    ensures
        final(list).wf(),
        final(list).rows_view() == old(list).rows_view() + recorded_rows(
            persistent_output_issues(crate::output_refinement::issue_views(issues@)),
            old(list).next_number(),
        ),
        final(list).next_number() == old(list).next_number() + persistent_output_issues(
            crate::output_refinement::issue_views(issues@),
        ).len(),
{
    let ghost all = crate::output_refinement::issue_views(issues@);
    let ghost n0 = list.next_number();
    let ghost r0 = list.rows_view();
    let mut rest = issues;
    let ghost orig = rest@;
    let ghost mut k: int = 0;
    proof {
        assert(all.take(0) =~= Seq::<(Seq<char>, Seq<char>, bool)>::empty());
        assert(r0 =~= r0 + recorded_rows(persistent_output_issues(all.take(0)), n0));
    }
    while rest.len() > 0
        invariant
            0 <= k <= orig.len(),
            all == crate::output_refinement::issue_views(orig),
            rest@ =~= orig.skip(k),
            list.wf(),
            n0 + orig.len() < u64::MAX,
            list.rows_view() == r0 + recorded_rows(persistent_output_issues(all.take(k)), n0),
            list.next_number() == n0 + persistent_output_issues(all.take(k)).len(),
        decreases rest@.len(),
    {
        let issue = rest.remove(0);
        proof {
            assert(issue == orig[k]);
            assert(all.take(k + 1).drop_last() =~= all.take(k));
            assert(all.take(k + 1).last() == issue@);
            lemma_persistent_output_bounded(all.take(k));
        }
        if issue.persist {
            let ghost items = persistent_output_issues(all.take(k));
            list.record(issue.name, issue.message);
            proof {
                let x = (issue.name@, issue.message@);
                assert(persistent_output_issues(all.take(k + 1)) =~= items.push(x));
                lemma_recorded_rows_push(items, n0, x);
                assert(list.rows_view() =~= r0 + recorded_rows(items, n0).push(
                    IssueView { id: issue_id(n0 + items.len()), name: x.0, message: x.1 },
                ));
                assert(list.rows_view() =~= r0 + recorded_rows(persistent_output_issues(all.take(k + 1)), n0));
            }
        } else {
            proof {
                assert(persistent_output_issues(all.take(k + 1)) =~= persistent_output_issues(all.take(k)));
            }
        }
        proof {
            k = k + 1;
        }
    }
    proof {
        assert(all.take(k) =~= all);
    }
}

/// Records the DIBL issues that persist (parse errors and failed fits) into
/// the issue list.
pub fn record_dibl_issues(list: &mut IngestIssues, issues: Vec<DiblIssue>)
    requires
        old(list).wf(),
        old(list).next_number() + issues@.len() < u64::MAX,
    ensures
        final(list).wf(),
        final(list).rows_view() == old(list).rows_view() + recorded_rows(
            persistent_dibl_issues(dibl_issue_views(issues@)),
            old(list).next_number(),
        ),
        final(list).next_number() == old(list).next_number() + persistent_dibl_issues(
            dibl_issue_views(issues@),
        ).len(),
{
    let ghost all = dibl_issue_views(issues@);
    let ghost n0 = list.next_number();
    let ghost r0 = list.rows_view();
    let mut rest = issues;
    let ghost orig = rest@;
    let ghost mut k: int = 0;
    proof {
        assert(all.take(0) =~= Seq::<(Seq<char>, Seq<char>, DiblIssueKind)>::empty());
        assert(r0 =~= r0 + recorded_rows(persistent_dibl_issues(all.take(0)), n0));
    }
    while rest.len() > 0
        invariant
            0 <= k <= orig.len(),
            all == dibl_issue_views(orig),
            rest@ =~= orig.skip(k),
            list.wf(),
            n0 + orig.len() < u64::MAX,
            list.rows_view() == r0 + recorded_rows(persistent_dibl_issues(all.take(k)), n0),
            list.next_number() == n0 + persistent_dibl_issues(all.take(k)).len(),
        decreases rest@.len(),
    {
        let issue = rest.remove(0);
        proof {
            assert(issue == orig[k]);
            assert(all.take(k + 1).drop_last() =~= all.take(k));
            assert(all.take(k + 1).last() == issue@);
            lemma_persistent_dibl_bounded(all.take(k));
        }
        let keep = match issue.kind {
            DiblIssueKind::Parse => true,
            DiblIssueKind::NoFit => true,
            _ => false,
        };
        if keep {
            let ghost items = persistent_dibl_issues(all.take(k));
            list.record(issue.name, issue.message);
            proof {
                let x = (issue.name@, issue.message@);
                assert(persistent_dibl_issues(all.take(k + 1)) =~= items.push(x));
                lemma_recorded_rows_push(items, n0, x);
                assert(list.rows_view() =~= r0 + recorded_rows(items, n0).push(
                    IssueView { id: issue_id(n0 + items.len()), name: x.0, message: x.1 },
                ));
                assert(list.rows_view() =~= r0 + recorded_rows(persistent_dibl_issues(all.take(k + 1)), n0));
            }
        } else {
            proof {
                assert(persistent_dibl_issues(all.take(k + 1)) =~= persistent_dibl_issues(all.take(k)));
            }
        }
        proof {
            k = k + 1;
        }
    }
    proof {
        assert(all.take(k) =~= all);
    }
}

// ---------------------------------------------------------------------------
// Failed workers
// ---------------------------------------------------------------------------

/// The action a failed output worker was performing, for its message.
pub fn output_failure_action(purpose: OutputRefinementPurpose) -> (r: &'static str)
    ensures
        r@ == output_failure_action_text(purpose),
{
    match purpose {
        OutputRefinementPurpose::Import => "Output refinement",
        OutputRefinementPurpose::AttachPending => "Pending-output attachment",
        OutputRefinementPurpose::Detach => "Output detachment",
        OutputRefinementPurpose::Remove => "Output removal",
    }
}

/// The action a failed DIBL worker was performing, for its message.
pub fn dibl_failure_action(purpose: DiblRefinementPurpose, mode: DiblRefinementMode) -> (r: &'static str)
    ensures
        r@ == dibl_failure_action_text(purpose, mode),
{
    match purpose {
        DiblRefinementPurpose::Import => match mode {
            DiblRefinementMode::Single => "DIBL refinement",
            DiblRefinementMode::Batch => "DIBL batch refinement",
        },
        DiblRefinementPurpose::AttachPending => "Pending-DIBL attachment",
        DiblRefinementPurpose::Detach => "DIBL detachment",
        DiblRefinementPurpose::Remove => "DIBL removal",
    }
}

/// The message of a failed output worker: what it was doing and how many
/// parsed measurements recovery kept as pending.
pub open spec fn output_failure_text(purpose: OutputRefinementPurpose, recovered: nat) -> Seq<char> {
    output_failure_action_text(purpose) + " failed. Kept "@ + decimal(recovered)
        + " parsed output measurement(s) pending."@
}

pub open spec fn output_failure_action_text(purpose: OutputRefinementPurpose) -> Seq<char> {
    match purpose {
        OutputRefinementPurpose::Import => "Output refinement"@,
        OutputRefinementPurpose::AttachPending => "Pending-output attachment"@,
        OutputRefinementPurpose::Detach => "Output detachment"@,
        OutputRefinementPurpose::Remove => "Output removal"@,
    }
}

/// The message of a failed DIBL worker: what it was doing and how many
/// parsed measurements recovery kept as pending.
pub open spec fn dibl_failure_text(
    purpose: DiblRefinementPurpose,
    mode: DiblRefinementMode,
    recovered: nat,
) -> Seq<char> {
    dibl_failure_action_text(purpose, mode) + " failed. Kept "@ + decimal(recovered)
        + " parsed DIBL measurement(s) pending."@
}

pub open spec fn dibl_failure_action_text(purpose: DiblRefinementPurpose, mode: DiblRefinementMode) -> Seq<char> {
    match purpose {
        DiblRefinementPurpose::Import => if mode == DiblRefinementMode::Single {
            "DIBL refinement"@
        } else {
            "DIBL batch refinement"@
        },
        DiblRefinementPurpose::AttachPending => "Pending-DIBL attachment"@,
        DiblRefinementPurpose::Detach => "DIBL detachment"@,
        DiblRefinementPurpose::Remove => "DIBL removal"@,
    }
}

/// Builds the message of a failed output worker.
pub fn output_failure_message(purpose: OutputRefinementPurpose, recovered: usize) -> (r: String)
    ensures
        r@ == output_failure_text(purpose, recovered as nat),
{
    let mut text = owned(output_failure_action(purpose));
    push_str(&mut text, " failed. Kept ");
    push_decimal(&mut text, recovered as u64);
    push_str(&mut text, " parsed output measurement(s) pending.");
    text
}

/// Builds the message of a failed DIBL worker.
pub fn dibl_failure_message(purpose: DiblRefinementPurpose, mode: DiblRefinementMode, recovered: usize) -> (r: String)
    ensures
        r@ == dibl_failure_text(purpose, mode, recovered as nat),
{
    let mut text = owned(dibl_failure_action(purpose, mode));
    push_str(&mut text, " failed. Kept ");
    push_decimal(&mut text, recovered as u64);
    push_str(&mut text, " parsed DIBL measurement(s) pending.");
    text
}

} // verus!
