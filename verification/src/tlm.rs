//! TLM page presentation state: the active results tab, the queue of
//! persistent load errors, the pre-formatted table rows and the generation they
//! were built from, plus the render-ready card projections.

use vstd::prelude::*;
use crate::source::{bare_name, lemma_blank_has_no_tail, path_file_name, plain_tail};
use crate::text::{decimal, is_blank, owned, push_decimal, push_str, str_is_blank};

verus! {

/// Which table the results card shows.
#[derive(Debug, Clone, Copy, PartialEq, Eq, Structural)]
pub enum TlmTab {
    Results,
    Sweep,
    Lengths,
}

impl Default for TlmTab {
    fn default() -> (r: Self)
        ensures
            r == TlmTab::Results,
    {
        TlmTab::Results
    }
}

pub open spec fn tab_index(t: TlmTab) -> usize {
    match t {
        TlmTab::Results => 0,
        TlmTab::Sweep => 1,
        TlmTab::Lengths => 2,
    }
}

pub open spec fn tab_at(idx: usize) -> TlmTab {
    if idx == 1 {
        TlmTab::Sweep
    } else if idx == 2 {
        TlmTab::Lengths
    } else {
        TlmTab::Results
    }
}

impl TlmTab {
    pub fn index(self) -> (r: usize)
        ensures
            r == tab_index(self),
    {
        match self {
            TlmTab::Results => 0,
            TlmTab::Sweep => 1,
            TlmTab::Lengths => 2,
        }
    }

    /// The tab at `idx`; any index past the last tab means Results.
    pub fn from_index(idx: usize) -> (r: Self)
        ensures
            r == tab_at(idx),
    {
        if idx == 1 {
            TlmTab::Sweep
        } else if idx == 2 {
            TlmTab::Lengths
        } else {
            TlmTab::Results
        }
    }
}

/// `from_index` undoes `index`.
pub proof fn lemma_tab_round_trip(t: TlmTab)
    ensures
        tab_at(tab_index(t)) == t,
{
}

/// Folder/count projection for the DATA card.
#[derive(Debug, Clone, Copy, PartialEq, Eq)]
pub struct TlmFolderSummary<'a> {
    pub root: &'a str,
    pub workbooks: usize,
    pub groups: usize,
}

/// Render-ready projection for the RESULTS card.
#[derive(Debug, Clone, Copy, PartialEq, Eq)]
pub struct TlmResultsCard {
    pub active_tab: TlmTab,
    pub has_result: bool,
    pub has_sweep: bool,
}

/// Render-ready projection for the FILES status card.
#[derive(Debug, Clone, Copy, PartialEq, Eq)]
pub struct TlmFilesCard {
    pub status_count: usize,
    pub error_count: usize,
}

/// One workbook's load status: the file, its status word, whether it loaded,
/// and the parse message.
pub struct FileStatusRecord {
    pub file: String,
    pub status: String,
    pub ok: bool,
    pub message: String,
}

/// Number of statuses that did not load.
pub open spec fn failed_count(s: Seq<FileStatusRecord>, k: int) -> nat
    decreases k,
{
    if k <= 0 {
        0
    } else {
        failed_count(s, k - 1) + if s[k - 1].ok {
            0nat
        } else {
            1nat
        }
    }
}

proof fn lemma_failed_count_bound(s: Seq<FileStatusRecord>, k: int)
    requires
        0 <= k <= s.len(),
    ensures
        failed_count(s, k) <= k,
    decreases k,
{
    if k > 0 {
        lemma_failed_count_bound(s, k - 1);
    }
}

/// The counts agree on two status lists that agree on their first `k` rows.
proof fn lemma_failed_count_prefix(s: Seq<FileStatusRecord>, t: Seq<FileStatusRecord>, k: int)
    requires
        0 <= k <= s.len(),
        k <= t.len(),
        forall|i: int| 0 <= i < k ==> s[i] == t[i],
    ensures
        failed_count(s, k) == failed_count(t, k),
    decreases k,
{
    if k > 0 {
        lemma_failed_count_prefix(s, t, k - 1);
    }
}

/// A status that did not load.
pub open spec fn is_failure(r: FileStatusRecord) -> bool {
    !r.ok
}

/// Adding a status to the list: one that loaded leaves the failure count as
/// it was, one that did not raises it by one.
pub proof fn law_failure_count_grows_only_with_failures(s: Seq<FileStatusRecord>, x: FileStatusRecord)
    ensures
        x.ok ==> failed_count(s.push(x), s.len() + 1int) == failed_count(s, s.len() as int),
        !x.ok ==> failed_count(s.push(x), s.len() + 1int) == failed_count(s, s.len() as int) + 1,
{
    lemma_failed_count_prefix(s, s.push(x), s.len() as int);
    assert(s.push(x)[s.len() as int] == x);
}

/// The failure count is the number of statuses that did not load: no list of
/// loaded workbooks reports a failure, and a list of failed ones reports each.
pub proof fn law_failure_count_is_failed_statuses(s: Seq<FileStatusRecord>)
    ensures
        failed_count(s, s.len() as int) == s.filter(|r: FileStatusRecord| is_failure(r)).len(),
        (forall|i: int| 0 <= i < s.len() ==> (#[trigger] s[i]).ok) ==> failed_count(s, s.len() as int) == 0,
        (forall|i: int| 0 <= i < s.len() ==> !(#[trigger] s[i]).ok) ==> failed_count(s, s.len() as int) == s.len(),
    decreases s.len(),
{
    reveal(Seq::filter);
    if s.len() > 0 {
        let t = s.drop_last();
        law_failure_count_is_failed_statuses(t);
        lemma_failed_count_prefix(s, t, t.len() as int);
        assert forall|i: int| 0 <= i < t.len() implies #[trigger] t[i] == s[i] by {}
        if forall|i: int| 0 <= i < s.len() ==> (#[trigger] s[i]).ok {
            assert forall|i: int| 0 <= i < t.len() implies (#[trigger] t[i]).ok by {
                assert(s[i].ok);
            }
            assert(s[s.len() - 1].ok);
        }
        if forall|i: int| 0 <= i < s.len() ==> !(#[trigger] s[i]).ok {
            assert forall|i: int| 0 <= i < t.len() implies !(#[trigger] t[i]).ok by {
                assert(!s[i].ok);
            }
            assert(!s[s.len() - 1].ok);
        }
    }
}

/// How many workbooks failed; drives the FILES card's header pill.
pub fn error_count(statuses: &[FileStatusRecord]) -> (r: usize)
    ensures
        r == failed_count(statuses@, statuses@.len() as int),
{
    let mut n: usize = 0;
    let mut i: usize = 0;
    while i < statuses.len()
        invariant
            i <= statuses@.len(),
            n == failed_count(statuses@, i as int),
            n <= i,
        decreases statuses@.len() - i,
    {
        if !statuses[i].ok {
            n = n + 1;
        }
        i = i + 1;
    }
    n
}

/// The FILES card for the current statuses.
pub fn files_card(statuses: &[FileStatusRecord]) -> (r: TlmFilesCard)
    ensures
        r.status_count == statuses@.len(),
        r.error_count == failed_count(statuses@, statuses@.len() as int),
{
    TlmFilesCard { status_count: statuses.len(), error_count: error_count(statuses) }
}

/// The FILES card's header pill: the failures when there are any, else how
/// many files loaded.
pub open spec fn files_pill_text(card: TlmFilesCard) -> Seq<char> {
    if card.error_count > 0 {
        decimal(card.error_count as nat) + " failed"@
    } else {
        decimal(card.status_count as nat) + " ok"@
    }
}

pub fn files_pill(card: TlmFilesCard) -> (r: String)
    ensures
        r@ == files_pill_text(card),
{
    let mut text = String::new();
    if card.error_count > 0 {
        push_decimal(&mut text, card.error_count as u64);
        push_str(&mut text, " failed");
    } else {
        push_decimal(&mut text, card.status_count as u64);
        push_str(&mut text, " ok");
    }
    proof {
        assert(Seq::<char>::empty() + decimal(card.error_count as nat) =~= decimal(card.error_count as nat));
        assert(Seq::<char>::empty() + decimal(card.status_count as nat) =~= decimal(card.status_count as nat));
    }
    text
}

/// One File-Status row per file: file, status, then the parse message as a
/// trailing hover payload.
pub fn status_rows(statuses: &[FileStatusRecord]) -> (r: Vec<Vec<String>>)
    ensures
        r@.len() == statuses@.len(),
        forall|i: int|
            0 <= i < r@.len() ==> {
                &&& (#[trigger] r@[i])@.len() == 3
                &&& r@[i]@[0]@ == statuses@[i].file@
                &&& r@[i]@[1]@ == statuses@[i].status@
                &&& r@[i]@[2]@ == statuses@[i].message@
            },
{
    let mut out: Vec<Vec<String>> = Vec::new();
    let mut i: usize = 0;
    while i < statuses.len()
        invariant
            i <= statuses@.len(),
            out@.len() == i,
            forall|k: int|
                0 <= k < i ==> {
                    &&& (#[trigger] out@[k])@.len() == 3
                    &&& out@[k]@[0]@ == statuses@[k].file@
                    &&& out@[k]@[1]@ == statuses@[k].status@
                    &&& out@[k]@[2]@ == statuses@[k].message@
                },
        decreases statuses@.len() - i,
    {
        let s = &statuses[i];
        let mut row: Vec<String> = Vec::new();
        row.push(s.file.clone());
        row.push(s.status.clone());
        row.push(s.message.clone());
        out.push(row);
        i = i + 1;
    }
    out
}

/// Pre-formatted display rows for the four TLM tables.
pub struct TlmRows {
    results: Vec<Vec<String>>,
    sweep: Vec<Vec<String>>,
    lengths: Vec<Vec<String>>,
    status: Vec<Vec<String>>,
}

impl TlmRows {
    pub closed spec fn results_view(&self) -> Seq<Vec<String>> {
        self.results@
    }

    pub closed spec fn sweep_view(&self) -> Seq<Vec<String>> {
        self.sweep@
    }

    pub closed spec fn lengths_view(&self) -> Seq<Vec<String>> {
        self.lengths@
    }

    pub closed spec fn status_view(&self) -> Seq<Vec<String>> {
        self.status@
    }

    /// No rows in any table.
    pub fn new() -> (r: Self)
        ensures
            r.results_view().len() == 0,
            r.sweep_view().len() == 0,
            r.lengths_view().len() == 0,
            r.status_view().len() == 0,
    {
        TlmRows { results: Vec::new(), sweep: Vec::new(), lengths: Vec::new(), status: Vec::new() }
    }

    /// Rows built from the analyses of one generation.
    pub fn from_tables(
        results: Vec<Vec<String>>,
        sweep: Vec<Vec<String>>,
        lengths: Vec<Vec<String>>,
        status: Vec<Vec<String>>,
    ) -> (r: Self)
        ensures
            r.results_view() == results@,
            r.sweep_view() == sweep@,
            r.lengths_view() == lengths@,
            r.status_view() == status@,
    {
        TlmRows { results, sweep, lengths, status }
    }

    pub fn results(&self) -> (r: &[Vec<String>])
        ensures
            r@ == self.results_view(),
    {
        self.results.as_slice()
    }

    pub fn sweep(&self) -> (r: &[Vec<String>])
        ensures
            r@ == self.sweep_view(),
    {
        self.sweep.as_slice()
    }

    pub fn lengths(&self) -> (r: &[Vec<String>])
        ensures
            r@ == self.lengths_view(),
    {
        self.lengths.as_slice()
    }

    pub fn status(&self) -> (r: &[Vec<String>])
        ensures
            r@ == self.status_view(),
    {
        self.status.as_slice()
    }
}

impl Default for TlmRows {
    fn default() -> (r: Self)
        ensures
            r.results_view().len() == 0,
            r.sweep_view().len() == 0,
            r.lengths_view().len() == 0,
            r.status_view().len() == 0,
    {
        TlmRows::new()
    }
}

/// The second line of the DATA card: `"N workbooks · M groups"`.
pub open spec fn count_line(workbooks: nat, groups: nat) -> Seq<char> {
    decimal(workbooks) + " workbooks \u{00B7} "@ + decimal(groups) + " groups"@
}

/// `(folder name, count line)` given the folder's final path component.
pub fn folder_summary_parts(root: &str, base: Option<String>, workbooks: usize, groups: usize) -> (r: (
    String,
    String,
))
    ensures
        r.0@ == match base {
            Some(b) => b@,
            None => root@,
        },
        r.1@ == count_line(workbooks as nat, groups as nat),
{
    let name = match base {
        Some(b) => b,
        None => owned(root),
    };
    let mut line = String::new();
    push_decimal(&mut line, workbooks as u64);
    push_str(&mut line, " workbooks \u{00B7} ");
    push_decimal(&mut line, groups as u64);
    push_str(&mut line, " groups");
    assert(line@ =~= count_line(workbooks as nat, groups as nat));
    (name, line)
}

/// `(folder basename, "N workbooks · M groups")` for the DATA card.
pub fn folder_summary(root: &str, workbooks: usize, groups: usize) -> (r: (String, String))
    ensures
        forall|dir: Seq<char>, name: Seq<char>| #[trigger] plain_tail(root@, dir, name) ==> r.0@ == name,
        bare_name(root@) ==> r.0@ == root@,
        is_blank(root@) ==> r.0@ == root@,
        r.1@ == count_line(workbooks as nat, groups as nat),
{
    if str_is_blank(root) {
        proof {
            lemma_blank_has_no_tail(root@);
        }
        return folder_summary_parts(root, None, workbooks, groups);
    }
    let base = path_file_name(root);
    folder_summary_parts(root, base, workbooks, groups)
}

/// The presentation state beside a TLM session.
pub struct TlmPresentation {
    load_errors: Vec<String>,
    results_tab: TlmTab,
    rows: TlmRows,
    rows_generation: u64,
}

impl TlmPresentation {
    pub closed spec fn errors(&self) -> Seq<Seq<char>> {
        self.load_errors@.map_values(|e: String| e@)
    }

    pub closed spec fn tab(&self) -> TlmTab {
        self.results_tab
    }

    pub closed spec fn generation(&self) -> u64 {
        self.rows_generation
    }

    pub closed spec fn rows_spec(&self) -> TlmRows {
        self.rows
    }

    pub fn new() -> (r: Self)
        ensures
            r.errors().len() == 0,
            r.tab() == TlmTab::Results,
            r.generation() == 0,
            r.rows_spec().results_view().len() == 0,
            r.rows_spec().sweep_view().len() == 0,
            r.rows_spec().lengths_view().len() == 0,
            r.rows_spec().status_view().len() == 0,
    {
        let r = TlmPresentation {
            load_errors: Vec::new(),
            results_tab: TlmTab::Results,
            rows: TlmRows::new(),
            rows_generation: 0,
        };
        assert(r.errors() =~= Seq::<Seq<char>>::empty());
        r
    }

    pub fn rows(&self) -> (r: &TlmRows)
        ensures
            *r == self.rows_spec(),
    {
        &self.rows
    }

    pub fn rows_generation(&self) -> (r: u64)
        ensures
            r == self.generation(),
    {
        self.rows_generation
    }

    pub fn results_tab(&self) -> (r: TlmTab)
        ensures
            r == self.tab(),
    {
        self.results_tab
    }

    pub fn set_results_tab(&mut self, tab: TlmTab)
        ensures
            final(self).tab() == tab,
            final(self).errors() == old(self).errors(),
            final(self).generation() == old(self).generation(),
            final(self).rows_spec() == old(self).rows_spec(),
    {
        self.results_tab = tab;
    }

    pub fn has_load_error(&self) -> (r: bool)
        ensures
            r == (self.errors().len() > 0),
    {
        self.load_errors.len() > 0
    }

    /// The oldest undismissed error and how many are queued.
    pub fn load_error(&self) -> (r: (Option<&str>, usize))
        ensures
            r.1 == self.errors().len(),
            r.0.is_some() == (self.errors().len() > 0),
            r.0.is_some() ==> r.0.unwrap()@ == self.errors()[0],
    {
        if self.load_errors.len() > 0 {
            (Some(self.load_errors[0].as_str()), self.load_errors.len())
        } else {
            (None, 0)
        }
    }

    /// Queues a persistent error row behind any already shown.
    pub fn push_load_error(&mut self, message: String)
        ensures
            final(self).errors() == old(self).errors().push(message@),
            final(self).tab() == old(self).tab(),
            final(self).generation() == old(self).generation(),
            final(self).rows_spec() == old(self).rows_spec(),
    {
        self.load_errors.push(message);
        assert(self.errors() =~= old(self).errors().push(message@));
    }

    /// Drops the oldest error row, if any.
    pub fn dismiss_load_error(&mut self)
        ensures
            final(self).errors() == if old(self).errors().len() > 0 {
                old(self).errors().drop_first()
            } else {
                old(self).errors()
            },
            final(self).tab() == old(self).tab(),
            final(self).generation() == old(self).generation(),
            final(self).rows_spec() == old(self).rows_spec(),
    {
        if self.load_errors.len() > 0 {
            self.load_errors.remove(0);
            assert(self.errors() =~= old(self).errors().drop_first());
        }
    }

    /// The rows are stale for `generation` and must be rebuilt.
    pub fn needs_rows(&self, generation: u64) -> (r: bool)
        ensures
            r == (generation != self.generation()),
    {
        generation != self.rows_generation
    }

    /// Adopts the rows built for `generation`; a generation the rows already
    /// reflect changes nothing.
    pub fn sync_rows(&mut self, generation: u64, rows: TlmRows)
        ensures
            final(self).generation() == generation,
            final(self).rows_spec() == if generation == old(self).generation() {
                old(self).rows_spec()
            } else {
                rows
            },
            final(self).errors() == old(self).errors(),
            final(self).tab() == old(self).tab(),
    {
        if generation == self.rows_generation {
            return;
        }
        self.rows = rows;
        self.rows_generation = generation;
    }

    /// A fresh load (or a clear) drops the error rows and lands on Results.
    pub fn reset_for_dataset(&mut self)
        ensures
            final(self).errors().len() == 0,
            final(self).tab() == TlmTab::Results,
            final(self).generation() == old(self).generation(),
            final(self).rows_spec() == old(self).rows_spec(),
    {
        self.load_errors = Vec::new();
        self.results_tab = TlmTab::Results;
        assert(self.errors() =~= Seq::<Seq<char>>::empty());
    }

    /// After removing a file: when something was removed and no dataset is
    /// left, the page resets like a clear.
    pub fn after_file_removed(&mut self, removed: usize, has_dataset: bool)
        ensures
            removed > 0 && !has_dataset ==> final(self).errors().len() == 0 && final(self).tab()
                == TlmTab::Results,
            !(removed > 0 && !has_dataset) ==> final(self).errors() == old(self).errors()
                && final(self).tab() == old(self).tab(),
            final(self).generation() == old(self).generation(),
            final(self).rows_spec() == old(self).rows_spec(),
    {
        if removed > 0 && !has_dataset {
            self.reset_for_dataset();
        }
    }

    /// The RESULTS card.
    pub fn results_card(&self, has_result: bool, has_sweep: bool) -> (r: TlmResultsCard)
        ensures
            r.active_tab == self.tab(),
            r.has_result == has_result,
            r.has_sweep == has_sweep,
    {
        TlmResultsCard { active_tab: self.results_tab, has_result, has_sweep }
    }
}

impl Default for TlmPresentation {
    fn default() -> (r: Self)
        ensures
            r.errors().len() == 0,
            r.tab() == TlmTab::Results,
            r.generation() == 0,
    {
        TlmPresentation::new()
    }
}

} // verus!
