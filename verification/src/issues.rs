//! Persistent ingest failures, listed after the device and pending rows until
//! the user dismisses them.

use vstd::prelude::*;
use crate::text::{decimal, digit_char, owned, push_decimal, str_eq};

verus! {

struct Issue {
    id: String,
    name: String,
    message: String,
}

/// Mathematical model of one issue row.
pub struct IssueView {
    pub id: Seq<char>,
    pub name: Seq<char>,
    pub message: Seq<char>,
}

/// One rendered issue row, borrowed from the list.
#[derive(Clone, Copy, Debug, PartialEq, Eq)]
pub struct IssueRow<'a> {
    pub id: &'a str,
    pub name: &'a str,
    pub message: &'a str,
}

/// The persistent issue list and the counter that numbers its rows.
#[derive(Default)]
pub struct IngestIssues {
    next_id: u64,
    issues: Vec<Issue>,
}

spec fn issue_view(i: Issue) -> IssueView {
    IssueView { id: i.id@, name: i.name@, message: i.message@ }
}

/// The identifier given to the issue recorded as number `n`.
pub open spec fn issue_id(n: nat) -> Seq<char> {
    "ingest-error-"@ + decimal(n)
}

proof fn lemma_digit_char_injective(a: nat, b: nat)
    requires
        a < 10,
        b < 10,
        digit_char(a) == digit_char(b),
    ensures
        a == b,
{
    assert(((48 + a) as u8) as u32 == ((48 + b) as u8) as u32);
}

proof fn lemma_decimal_len(n: nat)
    ensures
        decimal(n).len() >= 1,
        n >= 10 ==> decimal(n).len() >= 2,
    decreases n,
{
    if n >= 10 {
        lemma_decimal_len(n / 10);
    }
}

/// Distinct numbers have distinct decimal renderings.
pub proof fn lemma_decimal_injective(a: nat, b: nat)
    requires
        decimal(a) == decimal(b),
    ensures
        a == b,
    decreases a,
{
    lemma_decimal_len(a);
    lemma_decimal_len(b);
    if a < 10 && b < 10 {
        assert(decimal(a) == seq![digit_char(a)]);
        assert(decimal(b) == seq![digit_char(b)]);
        assert(seq![digit_char(a)][0] == digit_char(a));
        assert(seq![digit_char(b)][0] == digit_char(b));
        assert(decimal(a)[0] == decimal(b)[0]);
        lemma_digit_char_injective(a, b);
    } else if a >= 10 && b >= 10 {
        let da = decimal(a);
        let db = decimal(b);
        assert(da.last() == db.last());
        lemma_digit_char_injective(a % 10, b % 10);
        assert(da.drop_last() =~= decimal(a / 10));
        assert(db.drop_last() =~= decimal(b / 10));
        lemma_decimal_injective(a / 10, b / 10);
    } else {
        assert(decimal(a).len() != decimal(b).len());
    }
}

/// Distinct record numbers give distinct identifiers.
pub proof fn lemma_issue_id_injective(a: nat, b: nat)
    requires
        issue_id(a) == issue_id(b),
    ensures
        a == b,
{
    let p = "ingest-error-"@;
    assert(issue_id(a).skip(p.len() as int) =~= decimal(a));
    assert(issue_id(b).skip(p.len() as int) =~= decimal(b));
    lemma_decimal_injective(a, b);
}

impl IngestIssues {
    /// The rows, in recording order.
    pub closed spec fn rows_view(&self) -> Seq<IssueView> {
        self.issues@.map_values(|i: Issue| issue_view(i))
    }

    /// The number the next recorded issue will carry.
    pub closed spec fn next_number(&self) -> nat {
        self.next_id as nat
    }

    /// Every row carries an identifier `issue_id(k)` with `k` below the next
    /// number, and no two rows share an identifier.
    pub closed spec fn wf(&self) -> bool {
        &&& forall|i: int|
            0 <= i < self.issues@.len() ==> numbered_below(#[trigger] self.issues@[i].id@, self.next_id as nat)
        &&& forall|i: int, j: int|
            0 <= i < j < self.issues@.len() ==> self.issues@[i].id@ != self.issues@[j].id@
    }

    /// Recording an issue and then dismissing its identifier gives back the
    /// rows as they were: the new identifier is one no earlier row carries.
    pub proof fn law_dismiss_undoes_record(&self, name: Seq<char>, message: Seq<char>)
        requires
            self.wf(),
        ensures
            self.rows_view().push(
                IssueView { id: issue_id(self.next_number()), name, message },
            ).filter(keeps_other(issue_id(self.next_number()))) == self.rows_view(),
    {
        let n = self.next_number();
        let rows = self.rows_view();
        let pred = keeps_other(issue_id(n));
        assert forall|i: int| 0 <= i < rows.len() implies pred(#[trigger] rows[i]) by {
            assert(rows[i].id == self.issues@[i].id@);
            assert(numbered_below(self.issues@[i].id@, n));
            let k = choose|k: nat| k < n && self.issues@[i].id@ == issue_id(k);
            if rows[i].id == issue_id(n) {
                lemma_issue_id_injective(k, n);
            }
        }
        lemma_filter_keeps_all(rows, pred);
        let x = IssueView { id: issue_id(n), name, message };
        rows.lemma_filter_push(x, pred);
    }

    pub fn new() -> (r: Self)
        ensures
            r.wf(),
            r.rows_view() == Seq::<IssueView>::empty(),
            r.next_number() == 0,
    {
        let r = IngestIssues { next_id: 0, issues: Vec::new() };
        assert(r.rows_view() =~= Seq::<IssueView>::empty());
        r
    }

    /// The number the next recorded issue will carry.
    pub fn next_issue_number(&self) -> (r: u64)
        ensures
            r == self.next_number(),
    {
        self.next_id
    }

    /// Appends an issue with the next identifier.
    pub fn record(&mut self, name: String, message: String)
        requires
            old(self).wf(),
            old(self).next_number() < u64::MAX,
        ensures
            final(self).wf(),
            final(self).next_number() == old(self).next_number() + 1,
            final(self).rows_view() == old(self).rows_view().push(
                IssueView { id: issue_id(old(self).next_number()), name: name@, message: message@ },
            ),
    {
        let mut id = owned("ingest-error-");
        proof {
            reveal_strlit("ingest-error-");
        }
        push_decimal(&mut id, self.next_id);
        let ghost old_issues = self.issues@;
        let ghost n = self.next_id as nat;
        assert(id@ == issue_id(n));
        self.next_id = self.next_id + 1;
        self.issues.push(Issue { id, name, message });
        proof {
            assert(self.rows_view() =~= old(self).rows_view().push(
                IssueView { id: issue_id(n), name: name@, message: message@ },
            ));
            assert forall|i: int| 0 <= i < self.issues@.len() implies numbered_below(
                #[trigger] self.issues@[i].id@,
                self.next_id as nat,
            ) by {
                if i < old_issues.len() {
                    assert(self.issues@[i] == old_issues[i]);
                    assert(numbered_below(old_issues[i].id@, n));
                    let k = choose|k: nat| k < n && old_issues[i].id@ == issue_id(k);
                    assert(k < self.next_id && self.issues@[i].id@ == issue_id(k));
                } else {
                    assert(self.issues@[i].id@ == issue_id(n));
                }
            }
            assert forall|i: int, j: int|
                0 <= i < j < self.issues@.len() implies self.issues@[i].id@
                != self.issues@[j].id@ by {
                if j < old_issues.len() {
                    assert(self.issues@[i] == old_issues[i]);
                    assert(self.issues@[j] == old_issues[j]);
                } else {
                    assert(self.issues@[i] == old_issues[i]);
                    assert(numbered_below(old_issues[i].id@, n));
                    let k = choose|k: nat| k < n && old_issues[i].id@ == issue_id(k);
                    if self.issues@[i].id@ == self.issues@[j].id@ {
                        lemma_issue_id_injective(k, n);
                    }
                }
            }
        }
    }

    /// The rows, borrowed, in recording order.
    pub fn rows(&self) -> (r: Vec<IssueRow<'_>>)
        ensures
            r@.len() == self.rows_view().len(),
            forall|i: int|
                0 <= i < r@.len() ==> {
                    &&& (#[trigger] r@[i]).id@ == self.rows_view()[i].id
                    &&& r@[i].name@ == self.rows_view()[i].name
                    &&& r@[i].message@ == self.rows_view()[i].message
                },
    {
        let mut out: Vec<IssueRow<'_>> = Vec::new();
        let mut i: usize = 0;
        while i < self.issues.len()
            invariant
                i <= self.issues@.len(),
                out@.len() == i,
                forall|j: int|
                    0 <= j < i ==> {
                        &&& (#[trigger] out@[j]).id@ == self.rows_view()[j].id
                        &&& out@[j].name@ == self.rows_view()[j].name
                        &&& out@[j].message@ == self.rows_view()[j].message
                    },
            decreases self.issues@.len() - i,
        {
            let issue = &self.issues[i];
            out.push(
                IssueRow {
                    id: issue.id.as_str(),
                    name: issue.name.as_str(),
                    message: issue.message.as_str(),
                },
            );
            i = i + 1;
        }
        out
    }

    pub fn has_errors(&self) -> (r: bool)
        ensures
            r == (self.rows_view().len() > 0),
    {
        self.issues.len() > 0
    }

    /// Drops every row and returns how many there were; numbering continues.
    pub fn clear(&mut self) -> (r: usize)
        requires
            old(self).wf(),
        ensures
            final(self).wf(),
            r == old(self).rows_view().len(),
            final(self).rows_view() == Seq::<IssueView>::empty(),
            final(self).next_number() == old(self).next_number(),
    {
        let count = self.issues.len();
        self.issues = Vec::new();
        assert(self.rows_view() =~= Seq::<IssueView>::empty());
        count
    }

    /// Removes the rows whose identifier is `id`; reports whether any went.
    pub fn dismiss(&mut self, id: &str) -> (r: bool)
        requires
            old(self).wf(),
        ensures
            final(self).wf(),
            final(self).next_number() == old(self).next_number(),
            final(self).rows_view() == old(self).rows_view().filter(keeps_other(id@)),
            r == (final(self).rows_view().len() != old(self).rows_view().len()),
            r == exists|i: int|
                0 <= i < old(self).rows_view().len() && #[trigger] old(self).rows_view()[i].id
                    == id@,
    {
        let ghost orig = self.rows_view();
        let ghost orig_issues = self.issues@;
        let ghost pred = keeps_other(id@);
        let previous_len = self.issues.len();
        let mut rest: Vec<Issue> = Vec::new();
        std::mem::swap(&mut rest, &mut self.issues);
        let ghost mut k: int = 0;
        assert(orig.take(0).filter(pred) =~= Seq::<IssueView>::empty()) by {
            reveal(Seq::filter);
        }
        assert(self.rows_view() =~= Seq::<IssueView>::empty());
        while rest.len() > 0
            invariant
                0 <= k <= orig.len(),
                orig.len() == orig_issues.len(),
                orig == orig_issues.map_values(|i: Issue| issue_view(i)),
                orig_issues == old(self).issues@,
                pred == keeps_other(id@),
                old(self).wf(),
                rest@ =~= orig_issues.skip(k),
                self.rows_view() == orig.take(k).filter(pred),
                self.next_id == old(self).next_id,
                forall|a: int|
                    0 <= a < self.issues@.len() ==> exists|b: int|
                        0 <= b < k && #[trigger] self.issues@[a] == orig_issues[b],
                forall|a: int, c: int|
                    0 <= a < c < self.issues@.len() ==> self.issues@[a].id@
                        != self.issues@[c].id@,
            decreases rest@.len(),
        {
            let issue = rest.remove(0);
            let ghost before = self.issues@;
            proof {
                assert(issue == orig_issues[k]);
                assert(orig[k] == issue_view(orig_issues[k]));
                assert(orig.take(k + 1) =~= orig.take(k).push(orig[k]));
                orig.take(k).lemma_filter_push(orig[k], pred);
            }
            if !str_eq(issue.id.as_str(), id) {
                self.issues.push(issue);
                proof {
                    assert(self.rows_view() =~= old_rows_push(before, issue));
                    assert forall|a: int| 0 <= a < self.issues@.len() implies exists|b: int|
                        0 <= b < k + 1 && #[trigger] self.issues@[a] == orig_issues[b] by {
                        if a < before.len() {
                            assert(self.issues@[a] == before[a]);
                        } else {
                            assert(self.issues@[a] == orig_issues[k]);
                        }
                    }
                    assert forall|a: int, c: int|
                        0 <= a < c < self.issues@.len() implies self.issues@[a].id@
                        != self.issues@[c].id@ by {
                        assert(self.issues@[a] == before[a]);
                        if c == before.len() {
                            let b = choose|b: int| 0 <= b < k && before[a] == orig_issues[b];
                            assert(self.issues@[c] == orig_issues[k]);
                            assert(orig_issues[b].id@ != orig_issues[k].id@);
                        } else {
                            assert(self.issues@[c] == before[c]);
                        }
                    }
                }
            } else {
                proof {
                    assert(issue.id@ == id@);
                    assert(orig[k].id == issue.id@);
                    assert(!pred(orig[k]));
                }
            }
            proof {
                k = k + 1;
            }
        }
        proof {
            assert(orig.take(k) =~= orig);
            assert forall|i: int| 0 <= i < self.issues@.len() implies numbered_below(
                #[trigger] self.issues@[i].id@,
                self.next_id as nat,
            ) by {
                let b = choose|b: int| 0 <= b < k && self.issues@[i] == orig_issues[b];
                assert(orig_issues[b] == old(self).issues@[b]);
            }
            if exists|i: int| 0 <= i < orig.len() && #[trigger] orig[i].id == id@ {
                let i = choose|i: int| 0 <= i < orig.len() && #[trigger] orig[i].id == id@;
                lemma_filter_drops(orig, pred, i);
            } else {
                lemma_filter_keeps_all(orig, pred);
            }
        }
        self.issues.len() != previous_len
    }
}

/// `id` is the identifier of some record number below `n`.
pub open spec fn numbered_below(id: Seq<char>, n: nat) -> bool {
    exists|k: nat| k < n && id == issue_id(k)
}

/// Keeps the rows whose identifier differs from `id`.
pub open spec fn keeps_other(id: Seq<char>) -> spec_fn(IssueView) -> bool {
    |row: IssueView| row.id != id
}

spec fn old_rows_push(before: Seq<Issue>, issue: Issue) -> Seq<IssueView> {
    before.map_values(|i: Issue| issue_view(i)).push(issue_view(issue))
}

proof fn lemma_filter_drops(s: Seq<IssueView>, pred: spec_fn(IssueView) -> bool, i: int)
    requires
        0 <= i < s.len(),
        !pred(s[i]),
    ensures
        s.filter(pred).len() < s.len(),
    decreases s.len(),
{
    reveal(Seq::filter);
    s.drop_last().lemma_filter_len(pred);
    if i < s.len() - 1 {
        lemma_filter_drops(s.drop_last(), pred, i);
    }
}

proof fn lemma_filter_keeps_all(s: Seq<IssueView>, pred: spec_fn(IssueView) -> bool)
    requires
        forall|i: int| 0 <= i < s.len() ==> pred(#[trigger] s[i]),
    ensures
        s.filter(pred) == s,
    decreases s.len(),
{
    reveal(Seq::filter);
    if s.len() > 0 {
        lemma_filter_keeps_all(s.drop_last(), pred);
        assert(s.drop_last().push(s.last()) =~= s);
    }
}

} // verus!
