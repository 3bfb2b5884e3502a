//! The commit of a batch of uploaded files: what goes into the commit call,
//! how the answer and the state of the commit job are followed, and what is
//! reported afterwards.

use crate::sqlite::{row_views, FileData};
use vstd::prelude::*;

verus! {

/// What commits one uploaded file: the session, the offset at which it
/// ends, and the path that the file gets in the remote store.
#[derive(Debug)]
pub struct FinalizeDescriptor {
    pub session_id: String,
    pub final_offset: u64,
    pub destination_path: String,
}

/// The contents of a `FinalizeDescriptor`.
pub struct FinalizeView {
    pub session_id: Seq<char>,
    pub final_offset: u64,
    pub destination_path: Seq<char>,
}

impl View for FinalizeDescriptor {
    type V = FinalizeView;

    open spec fn view(&self) -> FinalizeView {
        FinalizeView {
            session_id: self.session_id@,
            final_offset: self.final_offset,
            destination_path: self.destination_path@,
        }
    }
}

/// The texts of a list of commits, in order.
pub open spec fn finalize_views(v: Seq<FinalizeDescriptor>) -> Seq<FinalizeView> {
    v.map_values(|d: FinalizeDescriptor| d@)
}

/// The texts of a list of strings, in order.
pub open spec fn text_views(v: Seq<String>) -> Seq<Seq<char>> {
    v.map_values(|t: String| t@)
}

/// How the upload of one file of a batch ended: with its commit, or with
/// the reason for which it failed.
pub enum UploadOutcome {
    Finished(FinalizeDescriptor),
    Failed(String),
}

/// The contents of an `UploadOutcome`.
pub enum UploadOutcomeView {
    Finished(FinalizeView),
    Failed(Seq<char>),
}

impl View for UploadOutcome {
    type V = UploadOutcomeView;

    open spec fn view(&self) -> UploadOutcomeView {
        match self {
            UploadOutcome::Finished(d) => UploadOutcomeView::Finished(d@),
            UploadOutcome::Failed(e) => UploadOutcomeView::Failed(e@),
        }
    }
}

/// The contents of a list of outcomes, in order.
pub open spec fn outcome_views(v: Seq<UploadOutcome>) -> Seq<UploadOutcomeView> {
    v.map_values(|o: UploadOutcome| o@)
}

/// The commits of the uploads that succeeded, in order.
pub open spec fn finished_of(outcomes: Seq<UploadOutcomeView>) -> Seq<FinalizeView>
    decreases outcomes.len(),
{
    if outcomes.len() == 0 {
        Seq::empty()
    } else {
        match outcomes.last() {
            UploadOutcomeView::Finished(d) => finished_of(outcomes.drop_last()).push(d),
            UploadOutcomeView::Failed(_) => finished_of(outcomes.drop_last()),
        }
    }
}

/// The reasons of the uploads that failed, in order.
pub open spec fn failures_of(outcomes: Seq<UploadOutcomeView>) -> Seq<Seq<char>>
    decreases outcomes.len(),
{
    if outcomes.len() == 0 {
        Seq::empty()
    } else {
        match outcomes.last() {
            UploadOutcomeView::Finished(_) => failures_of(outcomes.drop_last()),
            UploadOutcomeView::Failed(e) => failures_of(outcomes.drop_last()).push(e),
        }
    }
}

/// What goes into one commit call, and what is reported as failed.
pub struct FinishBatch {
    pub entries: Vec<FinalizeDescriptor>,
    pub failed: Vec<String>,
}

/// Sorts the outcomes of the uploads of a batch: the commits of those that
/// succeeded go into the commit call, in order, and every failure is kept
/// with its reason. A failed upload does not stop the batch.
pub fn collect_finishes(outcomes: Vec<UploadOutcome>) -> (r: FinishBatch)
    ensures
        finalize_views(r.entries@) == finished_of(outcome_views(outcomes@)),
        text_views(r.failed@) == failures_of(outcome_views(outcomes@)),
        r.entries.len() + r.failed.len() == outcomes.len(),
{
    let ghost all = outcome_views(outcomes@);
    let mut entries: Vec<FinalizeDescriptor> = Vec::new();
    let mut failed: Vec<String> = Vec::new();
    proof {
        assert(text_views(failed@) =~= Seq::<Seq<char>>::empty());
    }
    for outcome in it: outcomes
        invariant
            it.seq() == outcomes@,
            all == outcome_views(outcomes@),
            finalize_views(entries@) == finished_of(all.take(it.index() as int)),
            text_views(failed@) == failures_of(all.take(it.index() as int)),
            entries.len() + failed.len() == it.index(),
    {
        let ghost n = it.index() as int;
        proof {
            assert(all.take(n + 1).drop_last() =~= all.take(n));
        }
        match outcome {
            UploadOutcome::Finished(d) => {
                entries.push(d);
            },
            UploadOutcome::Failed(e) => {
                failed.push(e);
            },
        }
    }
    assert(all.take(all.len() as int) =~= all);
    FinishBatch { entries, failed }
}

/// The answer of the remote store to a commit call.
pub enum Launch {
    /// The batch is committed.
    Complete,
    /// The commit goes on as the job with this identifier.
    AsyncJobId(String),
    /// The call failed, for the reason given.
    Failed(String),
}

/// The answer of the remote store to a question about a job.
pub enum JobStatus {
    InProgress,
    Complete,
    /// The question or the job failed, for the reason given.
    Failed(String),
}

/// Why a batch is not known to be committed.
pub enum FinalizeError {
    /// The commit call failed.
    Commit(String),
    /// A question about the job failed.
    Poll(String),
    /// The job was asked about as often as allowed and was still going on.
    TimedOut,
}

/// Where the commit of a batch stands.
pub enum Finalizer {
    /// The job is to be asked about; so many questions were answered with
    /// `InProgress` already.
    Polling { job: String, polls: u32 },
    /// The batch is committed.
    Complete,
    /// The batch is not known to be committed; what it sent is left in the
    /// remote store in an unknown state.
    Failed(FinalizeError),
}

/// The contents of a `Launch`.
pub enum LaunchView {
    Complete,
    AsyncJobId(Seq<char>),
    Failed(Seq<char>),
}

/// The contents of a `JobStatus`.
pub enum JobStatusView {
    InProgress,
    Complete,
    Failed(Seq<char>),
}

/// The contents of a `FinalizeError`.
pub enum FinalizeErrorView {
    Commit(Seq<char>),
    Poll(Seq<char>),
    TimedOut,
}

/// The contents of a `Finalizer`.
pub enum FinalizerView {
    Polling { job: Seq<char>, polls: u32 },
    Complete,
    Failed(FinalizeErrorView),
}

impl View for Launch {
    type V = LaunchView;

    open spec fn view(&self) -> LaunchView {
        match self {
            Launch::Complete => LaunchView::Complete,
            Launch::AsyncJobId(j) => LaunchView::AsyncJobId(j@),
            Launch::Failed(e) => LaunchView::Failed(e@),
        }
    }
}

impl View for JobStatus {
    type V = JobStatusView;

    open spec fn view(&self) -> JobStatusView {
        match self {
            JobStatus::InProgress => JobStatusView::InProgress,
            JobStatus::Complete => JobStatusView::Complete,
            JobStatus::Failed(e) => JobStatusView::Failed(e@),
        }
    }
}

impl View for FinalizeError {
    type V = FinalizeErrorView;

    open spec fn view(&self) -> FinalizeErrorView {
        match self {
            FinalizeError::Commit(e) => FinalizeErrorView::Commit(e@),
            FinalizeError::Poll(e) => FinalizeErrorView::Poll(e@),
            FinalizeError::TimedOut => FinalizeErrorView::TimedOut,
        }
    }
}

impl View for Finalizer {
    type V = FinalizerView;

    open spec fn view(&self) -> FinalizerView {
        match self {
            Finalizer::Polling { job, polls } => FinalizerView::Polling { job: job@, polls: *polls },
            Finalizer::Complete => FinalizerView::Complete,
            Finalizer::Failed(e) => FinalizerView::Failed(e@),
        }
    }
}

/// The contents of a list of answers, in order.
pub open spec fn status_views(v: Seq<JobStatus>) -> Seq<JobStatusView> {
    v.map_values(|s: JobStatus| s@)
}

impl FinalizerView {
    /// Where the commit stands after the answer to the commit call.
    pub open spec fn launched(launch: LaunchView) -> FinalizerView {
        match launch {
            LaunchView::Complete => FinalizerView::Complete,
            LaunchView::AsyncJobId(job) => FinalizerView::Polling { job, polls: 0 },
            LaunchView::Failed(e) => FinalizerView::Failed(FinalizeErrorView::Commit(e)),
        }
    }

    /// Whether the job is to be asked about again.
    pub open spec fn polling(self) -> bool {
        self is Polling
    }

    /// Where the commit stands after one more answer about the job. While
    /// the job goes on it is asked about again, but not more than
    /// `max_polls` times in all; any failure ends the asking at once. An
    /// answer that comes when nothing was asked changes nothing.
    pub open spec fn polled(self, status: JobStatusView, max_polls: u32) -> FinalizerView {
        match self {
            FinalizerView::Polling { job, polls } => match status {
                JobStatusView::InProgress => if polls + 1 >= max_polls {
                    FinalizerView::Failed(FinalizeErrorView::TimedOut)
                } else {
                    FinalizerView::Polling { job, polls: (polls + 1) as u32 }
                },
                JobStatusView::Complete => FinalizerView::Complete,
                JobStatusView::Failed(e) => FinalizerView::Failed(FinalizeErrorView::Poll(e)),
            },
            _ => self,
        }
    }

    /// Where the commit stands after the answers, taken in order.
    pub open spec fn polled_all(self, statuses: Seq<JobStatusView>, max_polls: u32) -> FinalizerView
        decreases statuses.len(),
    {
        if statuses.len() == 0 {
            self
        } else {
            self.polled_all(statuses.drop_last(), max_polls).polled(statuses.last(), max_polls)
        }
    }
}

impl Finalizer {
    /// Takes the answer to the commit call.
    pub fn start(launch: Launch) -> (r: Finalizer)
        ensures
            r@ == FinalizerView::launched(launch@),
    {
        match launch {
            Launch::Complete => Finalizer::Complete,
            Launch::AsyncJobId(job) => Finalizer::Polling { job, polls: 0 },
            Launch::Failed(e) => Finalizer::Failed(FinalizeError::Commit(e)),
        }
    }

    /// The job to ask about next, if the asking goes on.
    pub fn job_to_poll(&self) -> (r: Option<&String>)
        ensures
            match r {
                Some(j) => self@ is Polling && self@->job == j@,
                None => !self@.polling(),
            },
    {
        match self {
            Finalizer::Polling { job, polls } => Some(job),
            _ => None,
        }
    }

    /// Takes one answer about the job.
    pub fn poll(self, status: JobStatus, max_polls: u32) -> (r: Finalizer)
        ensures
            r@ == self@.polled(status@, max_polls),
    {
        match self {
            Finalizer::Polling { job, polls } => match status {
                JobStatus::InProgress => {
                    if polls >= max_polls || polls + 1 >= max_polls {
                        Finalizer::Failed(FinalizeError::TimedOut)
                    } else {
                        Finalizer::Polling { job, polls: polls + 1 }
                    }
                },
                JobStatus::Complete => Finalizer::Complete,
                JobStatus::Failed(e) => Finalizer::Failed(FinalizeError::Poll(e)),
            },
            other => other,
        }
    }
}

/// What is left to do by hand after a batch: the paths whose commit is not
/// known to have happened, and the uploads that failed before the commit.
pub struct BatchReport {
    pub committed: bool,
    pub unresolved: Vec<String>,
    pub failed: Vec<String>,
}

/// The paths that the commits are for, in order.
pub open spec fn paths_of(entries: Seq<FinalizeView>) -> Seq<Seq<char>> {
    entries.map_values(|d: FinalizeView| d.destination_path)
}

/// Reports on a batch whose commit has ended as `end`. The batch is
/// committed when the asking ended in `Complete`; otherwise every path of
/// the commit call is reported as unresolved. Failed uploads are reported
/// in either case.
pub fn finish_report(batch: FinishBatch, end: &Finalizer) -> (r: BatchReport)
    ensures
        r.committed == (end@ is Complete),
        text_views(r.unresolved@) == if end@ is Complete {
            Seq::empty()
        } else {
            paths_of(finalize_views(batch.entries@))
        },
        r.failed@ == batch.failed@,
{
    let committed = match end {
        Finalizer::Complete => true,
        _ => false,
    };
    let mut unresolved: Vec<String> = Vec::new();
    if !committed {
        let mut i: usize = 0;
        while i < batch.entries.len()
            invariant
                i <= batch.entries.len(),
                text_views(unresolved@) == paths_of(finalize_views(batch.entries@)).take(i as int),
            decreases batch.entries.len() - i,
        {
            let path = batch.entries[i].destination_path.clone();
            unresolved.push(path);
            proof {
                let paths = paths_of(finalize_views(batch.entries@));
                assert(paths.take(i + 1) =~= paths.take(i as int).push(paths[i as int]));
            }
            i = i + 1;
        }
    } else {
        assert(text_views(unresolved@) =~= Seq::<Seq<char>>::empty());
    }
    BatchReport { committed, unresolved, failed: batch.failed }
}

/// What a run did, in numbers.
#[derive(PartialEq, Eq, Debug, Clone, Copy, Structural)]
pub struct RunSummary {
    /// The files that were scanned into the index.
    pub scanned: usize,
    /// The files that were not sent because the record knows their digest.
    pub deduplicated: usize,
    /// The files that were sent and whose batch was committed.
    pub uploaded: usize,
    /// The files that were sent in vain: their upload failed, or the commit
    /// of their batch is unresolved.
    pub left: usize,
}

/// How many files of the batches were sent in vain.
pub open spec fn left_in(reports: Seq<BatchReport>) -> nat
    decreases reports.len(),
{
    if reports.len() == 0 {
        0
    } else {
        left_in(reports.drop_last()) + reports.last().failed@.len()
            + reports.last().unresolved@.len()
    }
}

/// The first reports count no more files than all of them.
pub proof fn lemma_left_in_take(reports: Seq<BatchReport>, n: int)
    requires
        0 <= n <= reports.len(),
    ensures
        left_in(reports.take(n)) <= left_in(reports),
    decreases reports.len(),
{
    if n < reports.len() {
        assert(reports.drop_last().take(n) =~= reports.take(n));
        lemma_left_in_take(reports.drop_last(), n);
    } else {
        assert(reports.take(n) =~= reports);
    }
}

/// Sums up a run: of the `scanned` files, `sent` were handed to the
/// uploads and the others were known already; of those sent, the ones that
/// the reports name as failed or unresolved are left, and the others are
/// uploaded. Not more files can be sent than were scanned, and not more
/// can be left than were sent.
pub fn summarize(scanned: usize, sent: usize, reports: &Vec<BatchReport>) -> (r: RunSummary)
    requires
        sent <= scanned,
        left_in(reports@) <= sent,
    ensures
        r.scanned == scanned,
        r.deduplicated == scanned - sent,
        r.left == left_in(reports@),
        r.uploaded == sent - left_in(reports@),
{
    let mut left: usize = 0;
    let mut i: usize = 0;
    assert(reports@.take(0) =~= Seq::<BatchReport>::empty());
    while i < reports.len()
        invariant
            i <= reports.len(),
            left_in(reports@) <= sent,
            left == left_in(reports@.take(i as int)),
        decreases reports.len() - i,
    {
        proof {
            assert(reports@.take(i + 1).drop_last() =~= reports@.take(i as int));
            lemma_left_in_take(reports@, i + 1);
        }
        left = left + reports[i].failed.len() + reports[i].unresolved.len();
        i = i + 1;
    }
    assert(reports@.take(reports.len() as int) =~= reports@);
    RunSummary { scanned, deduplicated: scanned - sent, uploaded: sent - left, left }
}

/// The rows of the files whose upload finished: the row at every place at
/// which the outcome is a commit.
pub open spec fn rows_of_finished(
    rows: Seq<(Seq<char>, Seq<char>)>,
    outcomes: Seq<UploadOutcomeView>,
) -> Seq<(Seq<char>, Seq<char>)>
    decreases rows.len(),
{
    if rows.len() == 0 {
        Seq::empty()
    } else {
        let before = rows_of_finished(rows.drop_last(), outcomes);
        if rows.len() <= outcomes.len() && outcomes[rows.len() - 1] is Finished {
            before.push(rows.last())
        } else {
            before
        }
    }
}

/// Picks, from the rows of a batch, those of the files whose upload
/// finished. They are what the record of transferred files gets once the
/// batch is committed. A row without an outcome is left out.
pub fn finished_rows(rows: Vec<FileData>, outcomes: &Vec<UploadOutcome>) -> (r: Vec<FileData>)
    ensures
        row_views(r@) == rows_of_finished(row_views(rows@), outcome_views(outcomes@)),
{
    let ghost all = row_views(rows@);
    let ghost ends = outcome_views(outcomes@);
    let count = rows.len();
    let mut out: Vec<FileData> = Vec::new();
    let mut i: usize = 0;
    assert(all.take(0) =~= Seq::<(Seq<char>, Seq<char>)>::empty());
    assert(row_views(out@) =~= rows_of_finished(all.take(0), ends));
    for row in it: rows
        invariant
            it.seq() == rows@,
            all == row_views(rows@),
            ends == outcome_views(outcomes@),
            count == all.len(),
            i == it.index(),
            row_views(out@) == rows_of_finished(all.take(it.index() as int), ends),
    {
        let ghost n = it.index() as int;
        let ghost held = row_views(out@);
        proof {
            assert(all.take(n + 1).drop_last() =~= all.take(n));
            assert(all.take(n + 1).last() == row@);
        }
        let finished = i < outcomes.len() && match &outcomes[i] {
            UploadOutcome::Finished(_) => true,
            UploadOutcome::Failed(_) => false,
        };
        if finished {
            out.push(row);
            assert(row_views(out@) =~= held.push(row@));
        }
        i = i + 1;
    }
    assert(all.take(all.len() as int) =~= all);
    out
}

} // verus!
