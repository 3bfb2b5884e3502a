//! The record of what was transferred already: which file names and which
//! content digests are known, and how a listing of the remote store fills it.

use vstd::hash_set::StringHashSet;
use vstd::prelude::*;

verus! {

/// What the listing of the remote store reports, one message at a time.
pub enum Message {
    /// The listing is complete.
    Finish,
    /// The listing failed, for the reason given.
    Abort(String),
    /// One remote file: its name and its content digest.
    Progress(String, String),
}

/// The text of a `Message`.
pub enum MessageView {
    Finish,
    Abort(Seq<char>),
    Progress(Seq<char>, Seq<char>),
}

impl View for Message {
    type V = MessageView;

    open spec fn view(&self) -> MessageView {
        match self {
            Message::Finish => MessageView::Finish,
            Message::Abort(e) => MessageView::Abort(e@),
            Message::Progress(name, hash) => MessageView::Progress(name@, hash@),
        }
    }
}

/// The texts of a list of messages, in order.
pub open spec fn message_views(v: Seq<Message>) -> Seq<MessageView> {
    v.map_values(|m: Message| m@)
}

/// The kind of a stored file.
#[derive(PartialEq, Eq, Debug, Clone, Copy, Structural)]
pub enum FileType {
    Picture,
    Movie,
}

/// One row of the record: a file name and a content digest.
pub struct FileData {
    name: String,
    hash: String,
}

impl View for FileData {
    type V = (Seq<char>, Seq<char>);

    closed spec fn view(&self) -> (Seq<char>, Seq<char>) {
        (self.name@, self.hash@)
    }
}

impl FileData {
    /// A row with the given name and digest.
    pub fn new(name: String, hash: String) -> (r: FileData)
        ensures
            r@ == (name@, hash@),
    {
        FileData { name, hash }
    }

    /// The file name.
    pub fn name(&self) -> (r: &String)
        ensures
            r@ == self@.0,
    {
        &self.name
    }

    /// The content digest.
    pub fn hash(&self) -> (r: &String)
        ensures
            r@ == self@.1,
    {
        &self.hash
    }
}

/// The known names and the known digests.
pub struct StoreView {
    pub names: Set<Seq<char>>,
    pub hashes: Set<Seq<char>>,
}

impl StoreView {
    /// The record in which nothing is known.
    pub open spec fn empty() -> StoreView {
        StoreView { names: Set::empty(), hashes: Set::empty() }
    }

    /// A row is refused when its name or its digest is known already.
    pub open spec fn refuses(self, row: (Seq<char>, Seq<char>)) -> bool {
        self.names.contains(row.0) || self.hashes.contains(row.1)
    }

    /// The record after a row was offered: a refused row leaves it as it is.
    pub open spec fn offer(self, row: (Seq<char>, Seq<char>)) -> StoreView {
        if self.refuses(row) {
            self
        } else {
            StoreView { names: self.names.insert(row.0), hashes: self.hashes.insert(row.1) }
        }
    }
}

/// The record of transferred files. No name and no digest is held twice.
pub struct Store {
    names: StringHashSet,
    hashes: StringHashSet,
}

impl View for Store {
    type V = StoreView;

    closed spec fn view(&self) -> StoreView {
        StoreView { names: self.names@, hashes: self.hashes@ }
    }
}

impl Store {
    /// A record in which nothing is known.
    pub fn new() -> (r: Store)
        ensures
            r@ == StoreView::empty(),
    {
        Store { names: StringHashSet::new(), hashes: StringHashSet::new() }
    }

    /// Tells whether a file with this content digest is known.
    pub fn exist(&self, digest: &str) -> (r: bool)
        ensures
            r == self@.hashes.contains(digest@),
    {
        self.hashes.contains(digest)
    }

    /// Enters a row. A row whose name or digest is known already is refused
    /// with `false`, and the record stays as it is.
    pub fn insert(&mut self, data: &FileData) -> (accepted: bool)
        ensures
            accepted == !old(self)@.refuses(data@),
            final(self)@ == old(self)@.offer(data@),
    {
        if self.names.contains(data.name.as_str()) || self.hashes.contains(data.hash.as_str()) {
            return false;
        }
        self.names.insert(data.name.clone());
        self.hashes.insert(data.hash.clone());
        true
    }
}

/// The position of the first `Abort` among the messages, if there is one.
pub open spec fn first_abort(msgs: Seq<MessageView>) -> Option<int>
    decreases msgs.len(),
{
    if msgs.len() == 0 {
        None
    } else {
        match first_abort(msgs.drop_last()) {
            Some(i) => Some(i),
            None => if msgs.last() is Abort {
                Some(msgs.len() - 1)
            } else {
                None
            },
        }
    }
}

/// The record after the files reported by the messages were offered to it
/// in order.
pub open spec fn filled(start: StoreView, msgs: Seq<MessageView>) -> StoreView
    decreases msgs.len(),
{
    if msgs.len() == 0 {
        start
    } else {
        let before = filled(start, msgs.drop_last());
        match msgs.last() {
            MessageView::Progress(name, hash) => before.offer((name, hash)),
            _ => before,
        }
    }
}

/// The reported files that were refused on the way, in order.
pub open spec fn refused_rows(start: StoreView, msgs: Seq<MessageView>) -> Seq<
    (Seq<char>, Seq<char>),
>
    decreases msgs.len(),
{
    if msgs.len() == 0 {
        Seq::empty()
    } else {
        let before = filled(start, msgs.drop_last());
        let rows = refused_rows(start, msgs.drop_last());
        match msgs.last() {
            MessageView::Progress(name, hash) => if before.refuses((name, hash)) {
                rows.push((name, hash))
            } else {
                rows
            },
            _ => rows,
        }
    }
}

/// The reported files that were entered on the way, in order.
pub open spec fn accepted_rows(start: StoreView, msgs: Seq<MessageView>) -> Seq<
    (Seq<char>, Seq<char>),
>
    decreases msgs.len(),
{
    if msgs.len() == 0 {
        Seq::empty()
    } else {
        let before = filled(start, msgs.drop_last());
        let rows = accepted_rows(start, msgs.drop_last());
        match msgs.last() {
            MessageView::Progress(name, hash) => if before.refuses((name, hash)) {
                rows
            } else {
                rows.push((name, hash))
            },
            _ => rows,
        }
    }
}

/// The texts of a list of rows, in order.
pub open spec fn row_views(v: Seq<FileData>) -> Seq<(Seq<char>, Seq<char>)> {
    v.map_values(|d: FileData| d@)
}

/// What a rebuilt record consists of: the record, the rows that were
/// entered into it, and the reported files that it refused.
pub struct ResetReport {
    pub store: Store,
    pub accepted: Vec<FileData>,
    pub rejected: Vec<FileData>,
}

/// Rebuilds the record from a listing of the remote store. Every reported
/// file is offered to an empty record, in order; a file whose name or digest
/// is known by then is refused and reported, and the rebuilding goes on.
/// The first `Abort` ends it with that message's text as the error.
pub fn reset_db(messages: Vec<Message>) -> (r: Result<ResetReport, String>)
    ensures
        match first_abort(message_views(messages@)) {
            Some(i) => r matches Err(e) && message_views(messages@)[i] == MessageView::Abort(e@),
            None => r matches Ok(report) && report.store@ == filled(
                StoreView::empty(),
                message_views(messages@),
            ) && row_views(report.accepted@) == accepted_rows(
                StoreView::empty(),
                message_views(messages@),
            ) && row_views(report.rejected@) == refused_rows(
                StoreView::empty(),
                message_views(messages@),
            ),
        },
{
    let ghost all = message_views(messages@);
    let mut store = Store::new();
    let mut accepted: Vec<FileData> = Vec::new();
    let mut rejected: Vec<FileData> = Vec::new();
    for message in it: messages
        invariant
            it.seq() == messages@,
            all == message_views(messages@),
            first_abort(all.take(it.index() as int)) is None,
            store@ == filled(StoreView::empty(), all.take(it.index() as int)),
            row_views(accepted@) == accepted_rows(StoreView::empty(), all.take(it.index() as int)),
            row_views(rejected@) == refused_rows(StoreView::empty(), all.take(it.index() as int)),
    {
        let ghost n = it.index() as int;
        proof {
            assert(all.take(n + 1).drop_last() =~= all.take(n));
        }
        match message {
            Message::Finish => {},
            Message::Abort(e) => {
                proof {
                    lemma_first_abort_prefix(all, n + 1);
                }
                return Err(e);
            },
            Message::Progress(name, hash) => {
                let data = FileData::new(name, hash);
                if store.insert(&data) {
                    accepted.push(data);
                } else {
                    rejected.push(data);
                }
            },
        }
    }
    assert(all.take(all.len() as int) =~= all);
    Ok(ResetReport { store, accepted, rejected })
}

/// The first `Abort` of a prefix is the first `Abort` of the whole.
pub proof fn lemma_first_abort_prefix(msgs: Seq<MessageView>, n: int)
    requires
        0 <= n <= msgs.len(),
        first_abort(msgs.take(n)) is Some,
    ensures
        first_abort(msgs) == first_abort(msgs.take(n)),
    decreases msgs.len(),
{
    if n < msgs.len() {
        assert(msgs.drop_last().take(n) =~= msgs.take(n));
        lemma_first_abort_prefix(msgs.drop_last(), n);
    } else {
        assert(msgs.take(n) =~= msgs);
    }
}

} // verus!
