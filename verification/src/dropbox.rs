//! The remote store: the policy of uploads, and what is done to send the
//! files of an index, to commit a batch and to list the remote folder.

use crate::calc::DatetimeExtnameDigests;
use crate::finalizer::{
    collect_finishes, failures_of, finish_report, finished_of, outcome_views, paths_of,
    status_views, text_views, BatchReport, FinalizeDescriptor, Finalizer,
    FinalizerView, JobStatus, JobStatusView, Launch, UploadOutcome,
};
use crate::listing::{fetch_views, listing_messages, push_fetched, ListPage};
use crate::schedule::{
    all_items, batch_views, chunks, lemma_chunks, lemma_chunks_map, plan_items, split_batches,
};
use crate::session::{SessionState, SessionView, UploadSession};
use crate::sqlite::{message_views, Message, MessageView, Store};
use vstd::prelude::*;

verus! {

/// How many files one batch holds at most, unless the caller says otherwise.
pub const MAX_BATCH_ITEMS: usize = 1000;

/// How many blocks of one file are sent at a time.
pub const PARALLELISM: usize = 20;

/// The size of a block in bytes. The remote store fixes it.
pub const BLOCK_SIZE: u64 = 4194304;

/// Where an interrupted session is taken up again.
#[derive(Debug)]
pub struct Resume {
    start_offset: u64,
    session_id: String,
}

impl Resume {
    /// The offset at which the session is taken up.
    pub closed spec fn offset(&self) -> u64 {
        self.start_offset
    }

    /// The identifier of the session.
    pub closed spec fn id(&self) -> Seq<char> {
        self.session_id@
    }

    /// A session to take up at the given offset.
    pub fn new(start_offset: u64, session_id: String) -> (r: Resume)
        ensures
            r.offset() == start_offset,
            r.id() == session_id@,
    {
        Resume { start_offset, session_id }
    }

    /// The offset at which the session is taken up.
    pub fn start_offset(&self) -> (r: u64)
        ensures
            r == self.offset(),
    {
        self.start_offset
    }

    /// The identifier of the session.
    pub fn session_id(&self) -> (r: &String)
        ensures
            r@ == self.id(),
    {
        &self.session_id
    }
}

/// The folder of the remote store that uploads go to.
pub open spec fn upload_folder() -> Seq<char> {
    "/カメラアップロード/"@
}

/// Ends the upload of one file: once every block of the session was
/// acknowledged, the commit of the whole file under `dest_path` is handed
/// out. A session in which an append failed, or in which blocks are still
/// missing, gives no commit and stays as it is.
pub fn upload_file(session: &mut UploadSession, dest_path: String) -> (r: Option<
    FinalizeDescriptor,
>)
    requires
        old(session).wf(),
    ensures
        final(session).wf(),
        match r {
            Some(d) => {
                &&& old(session)@.state == SessionState::Closed
                &&& d@ == old(session)@.descriptor(dest_path@)
                &&& final(session)@ == (SessionView {
                    state: SessionState::Finalizing,
                    ..old(session)@
                })
            },
            None => old(session)@.state != SessionState::Closed && final(session)@ == old(
                session,
            )@,
        },
{
    session.finalize(dest_path)
}

/// Ends the upload of one file of a batch: once every block of the session
/// was acknowledged, the commit of the whole file under `name` in the
/// upload folder is handed out, to go into the commit of the batch. A
/// session in which an append failed, or in which blocks are still
/// missing, gives no commit and stays as it is.
pub fn upload_file2(session: &mut UploadSession, name: &str) -> (r: Option<FinalizeDescriptor>)
    requires
        old(session).wf(),
    ensures
        final(session).wf(),
        match r {
            Some(d) => {
                &&& old(session)@.state == SessionState::Closed
                &&& d@ == old(session)@.descriptor(upload_folder() + name@)
                &&& final(session)@ == (SessionView {
                    state: SessionState::Finalizing,
                    ..old(session)@
                })
            },
            None => old(session)@.state != SessionState::Closed && final(session)@ == old(
                session,
            )@,
        },
{
    let mut path = "/カメラアップロード/".to_owned();
    path.append(name);
    session.finalize(path)
}

/// Decides what is sent and in which batches. Every file whose digest the
/// record does not know is sent once, under the name that its place in its
/// bucket gives it; the files are taken bucket by bucket, pictures before
/// movies, and cut into batches of at most `max_batch_items`, which must
/// hold at least one file. No batch is empty, all but the last are full,
/// and the batches together hold every file to send exactly once.
pub fn upload_files(files: &DatetimeExtnameDigests, known: &Store, max_batch_items: usize) -> (r:
    Vec<Vec<(String, String)>>)
    requires
        max_batch_items > 0,
    ensures
        batch_views(r@) == chunks(
            all_items(files.buckets(), known@.hashes),
            max_batch_items as nat,
        ),
        batch_views(r@).flatten() == all_items(files.buckets(), known@.hashes),
        forall|k: int| 0 <= k < r.len() ==> 1 <= (#[trigger] r[k]).len() <= max_batch_items,
        forall|k: int| 0 <= k < r.len() - 1 ==> (#[trigger] r[k]).len() == max_batch_items,
{
    let items = plan_items(files, known);
    let ghost plain = items@;
    let batches = split_batches(items, max_batch_items);
    proof {
        let f = |p: (String, String)| (p.0@, p.1@);
        let cut = chunks(all_items(files.buckets(), known@.hashes), max_batch_items as nat);
        lemma_chunks_map(plain, f, max_batch_items as nat);
        assert(batch_views(batches@) =~= cut);
        lemma_chunks(all_items(files.buckets(), known@.hashes), max_batch_items as nat);
        assert forall|k: int| 0 <= k < batches.len() implies (#[trigger] batches[k]).len()
            == cut[k].len() by {
            assert(batch_views(batches@)[k].len() == batches[k].len());
        }
    }
    batches
}

/// Commits one batch, given what the remote store answered: the outcomes of
/// the uploads, the answer to the commit call, and the answers about the
/// job in the order in which they came. The batch is committed when the
/// asking ends in `Complete`; otherwise every path of the commit call is
/// reported as unresolved. Failed uploads are reported in either case.
pub fn upload_files2(
    outcomes: Vec<UploadOutcome>,
    launch: Launch,
    statuses: Vec<JobStatus>,
    max_polls: u32,
) -> (r: BatchReport)
    ensures
        ({
            let end = FinalizerView::launched(launch@).polled_all(
                status_views(statuses@),
                max_polls,
            );
            let entries = finished_of(outcome_views(outcomes@));
            &&& r.committed == (end is Complete)
            &&& text_views(r.unresolved@) == if end is Complete {
                Seq::empty()
            } else {
                paths_of(entries)
            }
            &&& text_views(r.failed@) == failures_of(outcome_views(outcomes@))
        }),
{
    let batch = collect_finishes(outcomes);
    let ghost all = status_views(statuses@);
    let mut state = Finalizer::start(launch);
    proof {
        assert(all.take(0) =~= Seq::<JobStatusView>::empty());
    }
    for status in it: statuses
        invariant
            it.seq() == statuses@,
            all == status_views(statuses@),
            state@ == FinalizerView::launched(launch@).polled_all(
                all.take(it.index() as int),
                max_polls,
            ),
    {
        let ghost n = it.index() as int;
        proof {
            assert(all.take(n + 1).drop_last() =~= all.take(n));
        }
        state = state.poll(status, max_polls);
    }
    assert(all.take(all.len() as int) =~= all);
    finish_report(batch, &state)
}

/// Turns a listing of the remote folder, fetched page by page, into the
/// messages that fill the record of transferred files.
pub fn list_directory2(pages: Vec<Result<ListPage, String>>) -> (r: Vec<Message>)
    ensures
        message_views(r@) == listing_messages(fetch_views(pages@)),
{
    let ghost all = fetch_views(pages@);
    let mut out: Vec<Message> = Vec::new();
    proof {
        assert(message_views(out@) =~= Seq::<MessageView>::empty());
    }
    for fetched in it: pages
        invariant
            it.seq() == pages@,
            all == fetch_views(pages@),
            message_views(out@) == listing_messages(all.take(it.index() as int)),
    {
        let ghost n = it.index() as int;
        proof {
            assert(all.take(n + 1).drop_last() =~= all.take(n));
        }
        push_fetched(fetched, &mut out);
    }
    assert(all.take(all.len() as int) =~= all);
    out
}

} // verus!
