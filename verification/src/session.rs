//! One resumable upload session: which blocks are out, which came back,
//! and when the file can be committed.

use crate::blocks::{block_count, planned_block, Block};
use crate::dropbox::{Resume, BLOCK_SIZE, PARALLELISM};
use crate::finalizer::{FinalizeDescriptor, FinalizeView};
use std::collections::HashMap;
use vstd::prelude::*;
use vstd::set_lib::{lemma_int_range, lemma_len_subset, set_int_range};

verus! {

/// Where a session stands.
#[derive(PartialEq, Eq, Debug, Clone, Copy, Structural)]
pub enum SessionState {
    /// Opened; no block was handed out yet.
    Started,
    /// Blocks are being sent.
    Appending,
    /// Every block was acknowledged; nothing more can be appended.
    Closed,
    /// The commit of the file was handed to the batch.
    Finalizing,
    /// The batch was committed.
    Complete,
    /// An append or the commit failed; the session is given up.
    Failed,
}

/// The plain contents of an upload session.
pub struct SessionView {
    pub session_id: Seq<char>,
    pub start_offset: u64,
    pub file_size: u64,
    pub state: SessionState,
    /// How many blocks were handed out for sending: the first so many.
    pub handed_out: nat,
    /// The numbers of the blocks that were acknowledged.
    pub acked: Set<int>,
}

/// The bytes of the acknowledged blocks among the first `k`.
pub open spec fn bytes_below(v: SessionView, k: nat) -> nat
    decreases k,
{
    if k == 0 {
        0
    } else {
        bytes_below(v, (k - 1) as nat) + if v.acked.contains(k - 1) {
            v.block((k - 1) as nat).len as nat
        } else {
            0
        }
    }
}

/// How many blocks from `k` on are acknowledged without a gap, added to `k`.
pub open spec fn leading(v: SessionView, k: nat) -> nat
    decreases v.blocks() - k,
{
    if k < v.blocks() && v.acked.contains(k as int) {
        leading(v, k + 1)
    } else {
        k
    }
}

impl SessionView {
    /// The number of blocks of the session.
    pub open spec fn blocks(self) -> nat {
        block_count((self.file_size - self.start_offset) as nat)
    }

    /// The `i`-th block of the session.
    pub open spec fn block(self, i: nat) -> Block {
        planned_block(self.start_offset as nat, self.file_size as nat, i)
    }

    /// How many blocks are out and not acknowledged.
    pub open spec fn in_flight(self) -> int {
        self.handed_out - self.acked.len()
    }

    /// The bytes of all acknowledged blocks together.
    pub open spec fn bytes_transferred(self) -> nat {
        bytes_below(self, self.blocks())
    }

    /// The offset up to which the file is acknowledged without a gap.
    pub open spec fn complete_up_to(self) -> nat {
        let k = leading(self, 0);
        if k == self.blocks() {
            self.file_size as nat
        } else {
            self.block(k).offset as nat
        }
    }

    /// Another block can be handed out: the session is open, a block is
    /// left, and fewer than `PARALLELISM` blocks are out.
    pub open spec fn can_append(self) -> bool {
        &&& self.state == SessionState::Started || self.state == SessionState::Appending
        &&& self.handed_out < self.blocks()
        &&& self.in_flight() < PARALLELISM
    }

    /// The session after the next block was handed out.
    pub open spec fn appended(self) -> SessionView {
        SessionView { handed_out: self.handed_out + 1, state: SessionState::Appending, ..self }
    }

    /// The number of the block of the session that starts at `offset`,
    /// whether it is out or not.
    pub open spec fn block_at(self, offset: u64) -> Option<int> {
        let from_start = offset - self.start_offset;
        if from_start >= 0 && from_start % (BLOCK_SIZE as int) == 0 && from_start / (
        BLOCK_SIZE as int) < self.blocks() {
            Some(from_start / (BLOCK_SIZE as int))
        } else {
            None
        }
    }

    /// The session after blocks were handed out, in order, until block `i`
    /// is out or no further block can be handed out.
    pub open spec fn appended_through(self, i: int) -> SessionView
        decreases i + 1 - self.handed_out,
    {
        if self.handed_out > i || !self.can_append() {
            self
        } else {
            self.appended().appended_through(i)
        }
    }

    /// Block `i` is to be sent: it is out, it was not acknowledged yet, and
    /// blocks are being sent.
    pub open spec fn sending(self, i: int) -> bool {
        &&& self.state == SessionState::Appending
        &&& i < self.handed_out
        &&& !self.acked.contains(i)
    }

    /// The number of the handed-out block that starts at `offset`.
    pub open spec fn index_of(self, offset: u64) -> Option<int> {
        let from_start = offset - self.start_offset;
        if from_start >= 0 && from_start % (BLOCK_SIZE as int) == 0 && from_start / (
        BLOCK_SIZE as int) < self.handed_out {
            Some(from_start / (BLOCK_SIZE as int))
        } else {
            None
        }
    }

    /// The block that starts at `offset` can be acknowledged: blocks are
    /// being sent, the block is out, and it was not acknowledged before.
    pub open spec fn can_acknowledge(self, offset: u64) -> bool {
        &&& self.state == SessionState::Appending
        &&& self.index_of(offset) is Some
        &&& !self.acked.contains(self.index_of(offset)->0)
    }

    /// The session after the block that starts at `offset` was
    /// acknowledged. With the last acknowledgement the session is closed.
    pub open spec fn acknowledged(self, offset: u64) -> SessionView {
        let acked = self.acked.insert(self.index_of(offset)->0);
        SessionView {
            acked,
            state: if acked.len() == self.blocks() {
                SessionState::Closed
            } else {
                SessionState::Appending
            },
            ..self
        }
    }

    /// The session can still fail: it is neither complete nor failed.
    pub open spec fn can_fail(self) -> bool {
        self.state != SessionState::Complete && self.state != SessionState::Failed
    }

    /// The commit of the whole file under the given path.
    pub open spec fn descriptor(self, destination_path: Seq<char>) -> FinalizeView {
        FinalizeView { session_id: self.session_id, final_offset: self.file_size, destination_path }
    }
}

/// Which blocks came back, as the remote protocol counts them: the offset
/// up to which the file is complete, and the length of every block behind
/// that offset that came back already.
pub struct CompletionTracker {
    complete_up_to: u64,
    uploaded_blocks: HashMap<u64, u64>,
}

/// One upload session.
pub struct UploadSession {
    session_id: String,
    start_offset: u64,
    file_size: u64,
    bytes_transferred: u64,
    completion: CompletionTracker,
    state: SessionState,
    handed_out: u64,
    frontier: u64,
    acked_count: u64,
    acked: Ghost<Set<int>>,
}

impl View for UploadSession {
    type V = SessionView;

    closed spec fn view(&self) -> SessionView {
        SessionView {
            session_id: self.session_id@,
            start_offset: self.start_offset,
            file_size: self.file_size,
            state: self.state,
            handed_out: self.handed_out as nat,
            acked: self.acked@,
        }
    }
}

/// The bytes that lie before the `k`-th block, or the whole rest of the
/// file for a `k` past the last block.
pub open spec fn bytes_before(v: SessionView, k: nat) -> nat {
    let remaining = (v.file_size - v.start_offset) as nat;
    if k * BLOCK_SIZE <= remaining {
        (k * BLOCK_SIZE) as nat
    } else {
        remaining
    }
}

/// The acknowledged blocks among the first `k` hold no more bytes than lie
/// before the `k`-th block.
pub proof fn lemma_bytes_below_bound(v: SessionView, k: nat)
    requires
        v.start_offset <= v.file_size,
        k <= v.blocks(),
    ensures
        bytes_below(v, k) <= bytes_before(v, k),
    decreases k,
{
    if k > 0 {
        lemma_bytes_below_bound(v, (k - 1) as nat);
    }
}

/// One more acknowledged block adds its length to the bytes transferred.
pub proof fn lemma_bytes_below_insert(v: SessionView, i: int, k: nat)
    requires
        0 <= i,
        !v.acked.contains(i),
    ensures
        bytes_below(SessionView { acked: v.acked.insert(i), ..v }, k) == bytes_below(v, k) + if i
            < k {
            v.block(i as nat).len as nat
        } else {
            0
        },
    decreases k,
{
    if k > 0 {
        lemma_bytes_below_insert(v, i, (k - 1) as nat);
    }
}

/// The bytes transferred depend on the acknowledged blocks alone.
pub proof fn lemma_bytes_below_same(v: SessionView, w: SessionView, k: nat)
    requires
        v.acked == w.acked,
        v.start_offset == w.start_offset,
        v.file_size == w.file_size,
    ensures
        bytes_below(v, k) == bytes_below(w, k),
    decreases k,
{
    if k > 0 {
        lemma_bytes_below_same(v, w, (k - 1) as nat);
    }
}

/// Where all blocks from `k` up to `f` are acknowledged and `f` is not,
/// the run of acknowledged blocks from `k` ends at `f`.
pub proof fn lemma_leading(v: SessionView, k: nat, f: nat)
    requires
        k <= f <= v.blocks(),
        forall|i: int| k <= i < f ==> v.acked.contains(i),
        f < v.blocks() ==> !v.acked.contains(f as int),
    ensures
        leading(v, k) == f,
    decreases f - k,
{
    if k < f {
        lemma_leading(v, k + 1, f);
    }
}

impl UploadSession {
    /// The session is consistent in itself.
    pub closed spec fn wf(&self) -> bool {
        let v = self@;
        let n = v.blocks();
        &&& self.start_offset <= self.file_size
        &&& self.frontier <= self.handed_out <= n
        &&& self.acked@.finite()
        &&& self.acked@.len() == self.acked_count
        &&& self.acked_count <= self.handed_out
        &&& self.handed_out - self.acked_count <= PARALLELISM
        &&& forall|i: int| self.acked@.contains(i) ==> 0 <= i < self.handed_out
        &&& forall|i: int| 0 <= i < self.frontier ==> self.acked@.contains(i)
        &&& !self.acked@.contains(self.frontier as int)
        &&& self.waiting_agrees()
        &&& self.completion.complete_up_to == self.start_offset + bytes_before(
            v,
            self.frontier as nat,
        )
        &&& self.bytes_transferred == v.bytes_transferred()
        &&& match self.state {
            SessionState::Started => self.handed_out == 0,
            SessionState::Appending => self.handed_out > 0 && self.acked_count < n,
            SessionState::Failed => true,
            _ => self.acked_count == n,
        }
    }

    /// The lengths kept for blocks behind the complete part are those of
    /// the acknowledged blocks there, under their offsets.
    pub closed spec fn waiting_agrees(&self) -> bool {
        let v = self@;
        let held = self.completion.uploaded_blocks@;
        &&& forall|i: int|
            self.frontier <= i < self.handed_out ==> (self.acked@.contains(i)
                <==> #[trigger] held.contains_key((self.start_offset + i * BLOCK_SIZE) as u64))
        &&& forall|k: u64| #[trigger]
            held.contains_key(k) ==> {
                &&& k >= self.start_offset
                &&& (k - self.start_offset) % (BLOCK_SIZE as int) == 0
                &&& self.frontier <= (k - self.start_offset) / (BLOCK_SIZE as int)
                    < self.handed_out
                &&& held[k] == v.block(((k - self.start_offset) / (BLOCK_SIZE as int)) as nat).len
            }
    }

    /// A session that was just opened for a file of the given size.
    pub fn new(session_id: String, file_size: u64) -> (r: UploadSession)
        ensures
            r.wf(),
            r@ == (SessionView {
                session_id: session_id@,
                start_offset: 0,
                file_size,
                state: SessionState::Started,
                handed_out: 0,
                acked: Set::empty(),
            }),
    {
        let r = UploadSession {
            session_id,
            start_offset: 0,
            file_size,
            bytes_transferred: 0,
            completion: CompletionTracker { complete_up_to: 0, uploaded_blocks: HashMap::new() },
            state: SessionState::Started,
            handed_out: 0,
            frontier: 0,
            acked_count: 0,
            acked: Ghost(Set::empty()),
        };
        proof {
            r.lemma_no_bytes();
        }
        r
    }

    /// A session that is taken up again at an offset within the file. An
    /// offset past the end of the file gives none.
    pub fn resume(resume: Resume, file_size: u64) -> (r: Option<UploadSession>)
        ensures
            match r {
                Some(s) => s.wf() && resume.offset() <= file_size && s@ == (SessionView {
                    session_id: resume.id(),
                    start_offset: resume.offset(),
                    file_size,
                    state: SessionState::Started,
                    handed_out: 0,
                    acked: Set::empty(),
                }),
                None => resume.offset() > file_size,
            },
    {
        let start_offset = resume.start_offset();
        if start_offset > file_size {
            return None;
        }
        let r = UploadSession {
            session_id: resume.session_id().clone(),
            start_offset,
            file_size,
            bytes_transferred: 0,
            completion: CompletionTracker {
                complete_up_to: start_offset,
                uploaded_blocks: HashMap::new(),
            },
            state: SessionState::Started,
            handed_out: 0,
            frontier: 0,
            acked_count: 0,
            acked: Ghost(Set::empty()),
        };
        proof {
            r.lemma_no_bytes();
        }
        Some(r)
    }

    proof fn lemma_no_bytes(&self)
        requires
            self.acked@ == Set::<int>::empty(),
        ensures
            forall|k: nat| bytes_below(self@, k) == 0,
    {
        assert forall|k: nat| bytes_below(self@, k) == 0 by {
            self.lemma_no_bytes_below(k);
        }
    }

    proof fn lemma_no_bytes_below(&self, k: nat)
        requires
            self.acked@ == Set::<int>::empty(),
        ensures
            bytes_below(self@, k) == 0,
        decreases k,
    {
        if k > 0 {
            self.lemma_no_bytes_below((k - 1) as nat);
        }
    }

    /// The identifier of the session.
    pub fn session_id(&self) -> (r: &String)
        ensures
            r@ == self@.session_id,
    {
        &self.session_id
    }

    /// The offset at which the session starts.
    pub fn start_offset(&self) -> (r: u64)
        ensures
            r == self@.start_offset,
    {
        self.start_offset
    }

    /// The size of the file.
    pub fn file_size(&self) -> (r: u64)
        ensures
            r == self@.file_size,
    {
        self.file_size
    }

    /// How many blocks were handed out for sending.
    pub fn handed_out(&self) -> (r: u64)
        ensures
            r == self@.handed_out,
    {
        self.handed_out
    }

    /// Where the session stands.
    pub fn state(&self) -> (r: SessionState)
        ensures
            r == self@.state,
    {
        self.state
    }

    /// A well-formed session starts within its file, has handed out no
    /// more blocks than there are, and has no more than `PARALLELISM` out.
    pub proof fn lemma_offsets(&self)
        requires
            self.wf(),
        ensures
            self@.start_offset <= self@.file_size,
            self@.handed_out <= self@.blocks(),
            0 <= self@.in_flight() <= PARALLELISM,
            self@.acked.finite(),
            forall|i: int| self@.acked.contains(i) ==> 0 <= i < self@.handed_out,
    {
    }

    /// The bytes of all acknowledged blocks together.
    pub fn bytes_transferred(&self) -> (r: u64)
        requires
            self.wf(),
        ensures
            r == self@.bytes_transferred(),
    {
        self.bytes_transferred
    }

    /// The offset up to which the file is acknowledged without a gap.
    pub fn complete_up_to(&self) -> (r: u64)
        requires
            self.wf(),
        ensures
            r == self@.complete_up_to(),
    {
        proof {
            lemma_leading(self@, 0, self.frontier as nat);
            self.lemma_block_count();
        }
        self.completion.complete_up_to
    }

    proof fn lemma_block_count(&self)
        requires
            self.start_offset <= self.file_size,
        ensures
            ({
                let n = self@.blocks();
                let remaining = self.file_size - self.start_offset;
                &&& n >= 1
                &&& (n - 1) * BLOCK_SIZE <= remaining <= n * BLOCK_SIZE
                &&& remaining > 0 ==> (n - 1) * BLOCK_SIZE < remaining
            }),
    {
    }

    /// The number of blocks of the session.
    pub fn blocks(&self) -> (r: u64)
        requires
            self.wf(),
        ensures
            r == self@.blocks(),
    {
        let remaining = self.file_size - self.start_offset;
        if remaining == 0 {
            1
        } else {
            (remaining - 1) / BLOCK_SIZE + 1
        }
    }

    fn block(&self, i: u64) -> (r: Block)
        requires
            self.start_offset <= self.file_size,
            i < self@.blocks(),
        ensures
            r == self@.block(i as nat),
    {
        proof {
            self.lemma_block_count();
        }
        let remaining = self.file_size - self.start_offset;
        let begin = i * BLOCK_SIZE;
        let left = remaining - begin;
        let last = left <= BLOCK_SIZE;
        proof {
            let n = self@.blocks();
            if last {
                assert(i + 1 == n) by {
                    assert(remaining <= (i + 1) * BLOCK_SIZE);
                }
            } else {
                assert(i + 1 < n) by {
                    assert(remaining > (i + 1) * BLOCK_SIZE);
                }
            }
        }
        Block {
            offset: self.start_offset + begin,
            len: if last {
                left
            } else {
                BLOCK_SIZE
            },
            close: last,
        }
    }

    /// Hands out the next block to send, if one is left and fewer than
    /// `PARALLELISM` blocks are out.
    pub fn next_append(&mut self) -> (r: Option<Block>)
        requires
            old(self).wf(),
        ensures
            final(self).wf(),
            match r {
                Some(b) => old(self)@.can_append() && b == old(self)@.block(old(self)@.handed_out)
                    && final(self)@ == old(self)@.appended(),
                None => !old(self)@.can_append() && final(self)@ == old(self)@,
            },
    {
        let open = match self.state {
            SessionState::Started => true,
            SessionState::Appending => true,
            _ => false,
        };
        let n = self.blocks();
        if !open || self.handed_out >= n || self.handed_out - self.acked_count
            >= PARALLELISM as u64 {
            return None;
        }
        let ghost before = *self;
        let block = self.block(self.handed_out);
        self.handed_out = self.handed_out + 1;
        self.state = SessionState::Appending;
        proof {
            assert forall|k: nat| bytes_below(self@, k) == bytes_below(before@, k) by {
                lemma_bytes_below_same(self@, before@, k);
            }
            assert(self.waiting_agrees()) by {
                let i = before.handed_out as int;
                let key = (self.start_offset + i * BLOCK_SIZE) as u64;
                self.lemma_block_count();
                if self.completion.uploaded_blocks@.contains_key(key) {
                    assert((key - self.start_offset) / (BLOCK_SIZE as int) == i);
                }
            }
        }
        Some(block)
    }

    /// Hands out the block that starts at `offset`, and with it every block
    /// before it that is not out yet. There is no such block where `offset`
    /// starts none, where too many blocks are out to reach it, where it was
    /// acknowledged already, and where the session is not open.
    pub fn append_at(&mut self, offset: u64) -> (r: Option<Block>)
        requires
            old(self).wf(),
        ensures
            final(self).wf(),
            match old(self)@.block_at(offset) {
                Some(i) => {
                    &&& final(self)@ == old(self)@.appended_through(i)
                    &&& final(self)@.sending(i) ==> r == Some(old(self)@.block(i as nat))
                    &&& !final(self)@.sending(i) ==> r is None
                },
                None => r is None && final(self)@ == old(self)@,
            },
    {
        if offset < self.start_offset {
            return None;
        }
        let from_start = offset - self.start_offset;
        let n = self.blocks();
        if from_start % BLOCK_SIZE != 0 || from_start / BLOCK_SIZE >= n {
            return None;
        }
        let i = from_start / BLOCK_SIZE;
        let ghost start = self@;
        while self.handed_out <= i
            invariant
                self.wf(),
                i < n,
                n == self@.blocks(),
                self@.blocks() == start.blocks(),
                self@.start_offset == start.start_offset,
                self@.file_size == start.file_size,
                self@.appended_through(i as int) == start.appended_through(i as int),
            ensures
                self.handed_out > i || !self@.can_append(),
            decreases i + 1 - self.handed_out,
        {
            match self.next_append() {
                Some(_) => {},
                None => {
                    break ;
                },
            }
        }
        let appending = match self.state {
            SessionState::Appending => true,
            _ => false,
        };
        proof {
            self.lemma_block_count();
            assert(i * BLOCK_SIZE <= (n - 1) * BLOCK_SIZE);
            assert(offset == (self.start_offset + i * BLOCK_SIZE) as u64);
            assert(start.block_at(offset) == Some(i as int));
            assert(self@ == start.appended_through(i as int));
            if self.frontier <= i < self.handed_out {
                assert(self.acked@.contains(i as int)
                    == self.completion.uploaded_blocks@.contains_key(offset));
            }
        }
        if appending && i < self.handed_out && i >= self.frontier
            && !self.completion.uploaded_blocks.contains_key(&offset) {
            Some(self.block(i))
        } else {
            None
        }
    }

    /// Takes the acknowledgement of the block that starts at `offset`. An
    /// acknowledgement of a block that is not out, or that was acknowledged
    /// before, is refused with `false` and changes nothing.
    pub fn complete_block(&mut self, offset: u64) -> (accepted: bool)
        requires
            old(self).wf(),
        ensures
            final(self).wf(),
            accepted == old(self)@.can_acknowledge(offset),
            final(self)@ == if accepted {
                old(self)@.acknowledged(offset)
            } else {
                old(self)@
            },
    {
        let appending = match self.state {
            SessionState::Appending => true,
            _ => false,
        };
        if !appending || offset < self.start_offset {
            return false;
        }
        let from_start = offset - self.start_offset;
        if from_start % BLOCK_SIZE != 0 {
            return false;
        }
        let i = from_start / BLOCK_SIZE;
        if i >= self.handed_out {
            return false;
        }
        proof {
            assert(offset == (self.start_offset + i * BLOCK_SIZE) as u64);
        }
        if i < self.frontier || self.completion.uploaded_blocks.contains_key(&offset) {
            return false;
        }
        let ghost before = *self;
        let n = self.blocks();
        let block = self.block(i);
        proof {
            let range = set_int_range(0, self.handed_out as int);
            lemma_int_range(0, self.handed_out as int);
            lemma_len_subset(self.acked@.insert(i as int), range);
            lemma_bytes_below_insert(before@, i as int, n as nat);
            lemma_bytes_below_bound(
                SessionView { acked: before.acked@.insert(i as int), ..before@ },
                n as nat,
            );
        }
        self.acked = Ghost(self.acked@.insert(i as int));
        self.acked_count = self.acked_count + 1;
        self.bytes_transferred = self.bytes_transferred + block.len;
        if i == self.frontier {
            self.frontier = self.frontier + 1;
            while self.frontier < self.handed_out && self.completion.uploaded_blocks.contains_key(
                &(self.start_offset + self.frontier * BLOCK_SIZE),
            )
                invariant
                    self.start_offset <= self.file_size,
                    n == self@.blocks(),
                    self.frontier <= self.handed_out <= n,
                    self.acked == Ghost(before.acked@.insert(i as int)),
                    self.start_offset == before.start_offset,
                    self.file_size == before.file_size,
                    self.handed_out == before.handed_out,
                    self.session_id == before.session_id,
                    self.state == before.state,
                    self.acked_count == before.acked_count + 1,
                    self.bytes_transferred == before.bytes_transferred + block.len,
                    forall|j: int| 0 <= j < self.frontier ==> self.acked@.contains(j),
                    self.waiting_agrees(),
                decreases self.handed_out - self.frontier,
            {
                proof {
                    self.lemma_block_count();
                }
                let key = self.start_offset + self.frontier * BLOCK_SIZE;
                let ghost held = self.completion.uploaded_blocks@;
                self.completion.uploaded_blocks.remove(&key);
                self.frontier = self.frontier + 1;
                proof {
                    let now = self.completion.uploaded_blocks@;
                    assert forall|j: int| self.frontier <= j < self.handed_out implies (
                    self.acked@.contains(j) <==> #[trigger] now.contains_key(
                        (self.start_offset + j * BLOCK_SIZE) as u64,
                    )) by {
                        assert(held.contains_key((self.start_offset + j * BLOCK_SIZE) as u64)
                            == self.acked@.contains(j));
                    }
                    assert forall|k: u64| #[trigger] now.contains_key(k) implies {
                        &&& k >= self.start_offset
                        &&& (k - self.start_offset) % (BLOCK_SIZE as int) == 0
                        &&& self.frontier <= (k - self.start_offset) / (BLOCK_SIZE as int)
                            < self.handed_out
                        &&& now[k] == self@.block(
                            ((k - self.start_offset) / (BLOCK_SIZE as int)) as nat,
                        ).len
                    } by {
                        assert(k != key);
                    }
                }
            }
            proof {
                self.lemma_block_count();
            }
            self.completion.complete_up_to = if self.frontier == n {
                self.file_size
            } else {
                proof {
                    assert(self.frontier * BLOCK_SIZE <= (n - 1) * BLOCK_SIZE);
                }
                self.start_offset + self.frontier * BLOCK_SIZE
            };
        } else {
            let ghost held = self.completion.uploaded_blocks@;
            self.completion.uploaded_blocks.insert(offset, block.len);
            proof {
                let now = self.completion.uploaded_blocks@;
                self.lemma_block_count();
                assert forall|j: int| self.frontier <= j < self.handed_out implies (
                self.acked@.contains(j) <==> #[trigger] now.contains_key(
                    (self.start_offset + j * BLOCK_SIZE) as u64,
                )) by {
                    assert(held.contains_key((self.start_offset + j * BLOCK_SIZE) as u64)
                        == before.acked@.contains(j));
                }
                assert forall|k: u64| #[trigger] now.contains_key(k) implies {
                    &&& k >= self.start_offset
                    &&& (k - self.start_offset) % (BLOCK_SIZE as int) == 0
                    &&& self.frontier <= (k - self.start_offset) / (BLOCK_SIZE as int)
                        < self.handed_out
                    &&& now[k] == self@.block(
                        ((k - self.start_offset) / (BLOCK_SIZE as int)) as nat,
                    ).len
                } by {
                    if k != offset {
                        assert(held.contains_key(k));
                    }
                }
            }
        }
        if self.acked_count == n {
            self.state = SessionState::Closed;
        }
        proof {
            lemma_bytes_below_same(
                self@,
                SessionView { acked: before.acked@.insert(i as int), ..before@ },
                n as nat,
            );
        }
        true
    }

    /// Gives the session up after a failure. A session that is complete or
    /// has failed already stays as it is.
    pub fn fail(&mut self) -> (changed: bool)
        requires
            old(self).wf(),
        ensures
            final(self).wf(),
            changed == old(self)@.can_fail(),
            final(self)@ == if changed {
                SessionView { state: SessionState::Failed, ..old(self)@ }
            } else {
                old(self)@
            },
    {
        let ghost before = *self;
        match self.state {
            SessionState::Complete => false,
            SessionState::Failed => false,
            _ => {
                self.state = SessionState::Failed;
                proof {
                    lemma_bytes_below_same(self@, before@, self@.blocks());
                }
                true
            },
        }
    }

    /// Produces the commit of the file once the session is closed: the
    /// whole length of the file, under the given path. The commit is not
    /// sent by itself but handed to the batch. In any other state, that of
    /// a failed session too, there is no commit.
    pub fn finalize(&mut self, destination_path: String) -> (r: Option<FinalizeDescriptor>)
        requires
            old(self).wf(),
        ensures
            final(self).wf(),
            match r {
                Some(d) => {
                    &&& old(self)@.state == SessionState::Closed
                    &&& d@ == old(self)@.descriptor(destination_path@)
                    &&& final(self)@ == (SessionView {
                        state: SessionState::Finalizing,
                        ..old(self)@
                    })
                },
                None => old(self)@.state != SessionState::Closed && final(self)@ == old(self)@,
            },
    {
        let ghost before = *self;
        match self.state {
            SessionState::Closed => {
                self.state = SessionState::Finalizing;
                proof {
                    lemma_bytes_below_same(self@, before@, self@.blocks());
                }
                Some(
                    FinalizeDescriptor {
                        session_id: self.session_id.clone(),
                        final_offset: self.file_size,
                        destination_path,
                    },
                )
            },
            _ => None,
        }
    }

    /// Notes that the batch of the session was committed. Only a session
    /// whose commit was handed out becomes complete.
    pub fn committed(&mut self) -> (changed: bool)
        requires
            old(self).wf(),
        ensures
            final(self).wf(),
            changed == (old(self)@.state == SessionState::Finalizing),
            final(self)@ == if changed {
                SessionView { state: SessionState::Complete, ..old(self)@ }
            } else {
                old(self)@
            },
    {
        let ghost before = *self;
        match self.state {
            SessionState::Finalizing => {
                self.state = SessionState::Complete;
                proof {
                    lemma_bytes_below_same(self@, before@, self@.blocks());
                }
                true
            },
            _ => false,
        }
    }
}

} // verus!
