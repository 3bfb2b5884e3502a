//! The single consumer of the walker's messages: it gathers the paths of
//! the files to scan into batches and knows when the last batch is due.

use crate::calc::{calc_message_views, CalcMessage, CalcMessageView};
use vstd::prelude::*;

verus! {

/// The texts of a list of paths, in order.
pub open spec fn path_views(v: Seq<String>) -> Seq<Seq<char>> {
    v.map_values(|p: String| p@)
}

/// The texts of a list of batches of paths.
pub open spec fn path_batches(v: Seq<Vec<String>>) -> Seq<Seq<Seq<char>>> {
    v.map_values(|b: Vec<String>| path_views(b@))
}

/// How many paths the controller gathers before it hands them out as a
/// batch, unless the caller says otherwise.
pub const BATCH_PATHS: usize = 100;

/// What the controller has taken in so far.
pub struct ControllerView {
    /// The announced number of files, once `Finish` has come.
    pub total: Option<int>,
    /// How many `File` messages have come.
    pub seen: nat,
    /// The paths gathered and not handed out yet.
    pub pending: Seq<Seq<char>>,
    /// Whether the last batch was handed out.
    pub done: bool,
}

/// What the controller hands out after one message.
pub struct DispatchView {
    /// A batch that reached the limit.
    pub full: Option<Seq<Seq<char>>>,
    /// The last batch, which may be empty; with it the controller is done.
    pub last: Option<Seq<Seq<char>>>,
}

impl ControllerView {
    /// The controller before any message.
    pub open spec fn start() -> ControllerView {
        ControllerView { total: None, seen: 0, pending: Seq::empty(), done: false }
    }

    /// The controller after it has noted the message, before it hands
    /// anything out.
    pub open spec fn noted(self, m: CalcMessageView) -> ControllerView {
        match m {
            CalcMessageView::Finish(t) => ControllerView { total: Some(t), ..self },
            CalcMessageView::File(p) => ControllerView {
                seen: self.seen + 1,
                pending: self.pending.push(p),
                ..self
            },
        }
    }

    /// What is handed out after the message: the gathered paths as a full
    /// batch once there are `limit` of them, and then, once as many files
    /// have come as were announced, what is gathered as the last batch.
    /// A controller that is done hands out nothing more.
    pub open spec fn dispatch(self, m: CalcMessageView, limit: nat) -> DispatchView {
        let c = self.noted(m);
        let is_full = c.pending.len() >= limit;
        let rest = if is_full {
            Seq::empty()
        } else {
            c.pending
        };
        if self.done {
            DispatchView { full: None, last: None }
        } else {
            DispatchView {
                full: if is_full {
                    Some(c.pending)
                } else {
                    None
                },
                last: if c.total == Some(c.seen as int) {
                    Some(rest)
                } else {
                    None
                },
            }
        }
    }

    /// The controller after the message. A controller that is done takes
    /// no more messages and stays as it is.
    pub open spec fn step(self, m: CalcMessageView, limit: nat) -> ControllerView {
        let c = self.noted(m);
        let d = self.dispatch(m, limit);
        if self.done {
            self
        } else {
            ControllerView {
                pending: if d.full is Some || d.last is Some {
                    Seq::empty()
                } else {
                    c.pending
                },
                done: d.last is Some,
                ..c
            }
        }
    }
}

/// What the controller hands out after one message.
pub struct Dispatch {
    /// A batch that reached the limit.
    pub full: Option<Vec<String>>,
    /// The last batch, which may be empty; with it the controller is done.
    pub last: Option<Vec<String>>,
}

impl View for Dispatch {
    type V = DispatchView;

    open spec fn view(&self) -> DispatchView {
        DispatchView {
            full: match self.full {
                Some(b) => Some(path_views(b@)),
                None => None,
            },
            last: match self.last {
                Some(b) => Some(path_views(b@)),
                None => None,
            },
        }
    }
}

/// The single consumer of the walker's messages: it gathers paths into
/// batches and knows when the last one is due.
pub struct Controller {
    total: Option<i32>,
    seen: usize,
    pending: Vec<String>,
    limit: usize,
    done: bool,
}

impl View for Controller {
    type V = ControllerView;

    closed spec fn view(&self) -> ControllerView {
        ControllerView {
            total: match self.total {
                Some(t) => Some(t as int),
                None => None,
            },
            seen: self.seen as nat,
            pending: path_views(self.pending@),
            done: self.done,
        }
    }
}

impl Controller {
    /// The number of gathered paths at which a batch is handed out.
    pub closed spec fn limit(&self) -> nat {
        self.limit as nat
    }

    /// A controller that has seen nothing yet.
    pub fn new(limit: usize) -> (r: Controller)
        ensures
            r@ == ControllerView::start(),
            r.limit() == limit,
    {
        let r = Controller { total: None, seen: 0, pending: Vec::new(), limit, done: false };
        assert(r@.pending =~= Seq::<Seq<char>>::empty());
        r
    }

    /// Whether the last batch was handed out.
    pub fn is_done(&self) -> (r: bool)
        ensures
            r == self@.done,
    {
        self.done
    }

    /// How many `File` messages have come.
    pub fn seen(&self) -> (r: usize)
        ensures
            r == self@.seen,
    {
        self.seen
    }

    /// Takes in one message and says what is to be handed out.
    pub fn step(&mut self, message: CalcMessage) -> (r: Dispatch)
        requires
            old(self)@.seen < usize::MAX,
        ensures
            r@ == old(self)@.dispatch(message@, old(self).limit()),
            final(self)@ == old(self)@.step(message@, old(self).limit()),
            final(self).limit() == old(self).limit(),
    {
        let ghost before = self@;
        if self.done {
            return Dispatch { full: None, last: None };
        }
        match message {
            CalcMessage::Finish(t) => {
                self.total = Some(t);
            },
            CalcMessage::File(path) => {
                self.seen = self.seen + 1;
                self.pending.push(path);
            },
        }
        let mut full: Option<Vec<String>> = None;
        if self.pending.len() >= self.limit {
            let mut batch: Vec<String> = Vec::new();
            core::mem::swap(&mut self.pending, &mut batch);
            full = Some(batch);
        }
        let complete = match self.total {
            Some(t) => t >= 0 && t as usize == self.seen,
            None => false,
        };
        let mut last: Option<Vec<String>> = None;
        if complete {
            let mut batch: Vec<String> = Vec::new();
            core::mem::swap(&mut self.pending, &mut batch);
            last = Some(batch);
        }
        self.done = complete;
        let r = Dispatch { full, last };
        proof {
            let d = before.dispatch(message@, self.limit());
            assert(r@.full == d.full);
            if r@.last is Some {
                assert(r@.last->0 =~= d.last->0);
            }
            assert(self@.pending =~= before.step(message@, self.limit()).pending);
        }
        r
    }
}

/// Why the controller could not finish.
#[derive(PartialEq, Eq, Debug, Clone, Copy, Structural)]
pub enum ControllerError {
    /// The messages ended before as many files had come as were announced.
    ChannelClosed,
}

/// The controller and what it has handed out, after a list of messages.
pub struct RunView {
    pub state: ControllerView,
    pub batches: Seq<Seq<Seq<char>>>,
}

/// What the messages lead to when the controller takes them in order and
/// takes no more once it is done.
pub open spec fn run(msgs: Seq<CalcMessageView>, limit: nat) -> RunView
    decreases msgs.len(),
{
    if msgs.len() == 0 {
        RunView { state: ControllerView::start(), batches: Seq::empty() }
    } else {
        let prev = run(msgs.drop_last(), limit);
        if prev.state.done {
            prev
        } else {
            let d = prev.state.dispatch(msgs.last(), limit);
            let with_full = match d.full {
                Some(b) => prev.batches.push(b),
                None => prev.batches,
            };
            RunView {
                state: prev.state.step(msgs.last(), limit),
                batches: match d.last {
                    Some(b) => with_full.push(b),
                    None => with_full,
                },
            }
        }
    }
}

/// The paths of the `File` messages, in order.
pub open spec fn files_of(msgs: Seq<CalcMessageView>) -> Seq<Seq<char>>
    decreases msgs.len(),
{
    if msgs.len() == 0 {
        Seq::empty()
    } else {
        match msgs.last() {
            CalcMessageView::File(p) => files_of(msgs.drop_last()).push(p),
            CalcMessageView::Finish(_) => files_of(msgs.drop_last()),
        }
    }
}

/// As long as the controller took every message, what it handed out and
/// what it still holds are together the paths of the `File` messages, each
/// once and in order; no batch is longer than a limit of one or more; and
/// when it is done it holds nothing, and as many files came as were
/// announced.
pub proof fn lemma_run(msgs: Seq<CalcMessageView>, limit: nat)
    requires
        msgs.len() > 0 ==> !run(msgs.drop_last(), limit).state.done,
    ensures
        run(msgs, limit).batches.flatten() + run(msgs, limit).state.pending == files_of(msgs),
        run(msgs, limit).state.seen == files_of(msgs).len(),
        run(msgs, limit).state.seen <= msgs.len(),
        run(msgs, limit).state.pending.len() <= run(msgs, limit).state.seen,
        limit >= 1 ==> run(msgs, limit).state.pending.len() < limit,
        limit >= 1 ==> forall|k: int|
            0 <= k < run(msgs, limit).batches.len() ==> (#[trigger] run(msgs, limit).batches[k]).len()
                <= limit,
        run(msgs, limit).state.done ==> run(msgs, limit).state.pending.len() == 0 && run(
            msgs,
            limit,
        ).state.total == Some(files_of(msgs).len() as int),
    decreases msgs.len(),
{
    let r = run(msgs, limit);
    if msgs.len() == 0 {
        assert(r.batches.flatten() + r.state.pending =~= files_of(msgs));
    } else {
        let init = msgs.drop_last();
        let prev = run(init, limit);
        if init.len() > 0 {
            assert(!run(init.drop_last(), limit).state.done) by {
                if run(init.drop_last(), limit).state.done {
                    assert(run(init, limit) == run(init.drop_last(), limit));
                }
            }
        }
        lemma_run(init, limit);
        let m = msgs.last();
        let c = prev.state.noted(m);
        let d = prev.state.dispatch(m, limit);
        let with_full = match d.full {
            Some(b) => prev.batches.push(b),
            None => prev.batches,
        };
        if d.full is Some {
            prev.batches.lemma_flatten_push(c.pending);
        }
        let rest: Seq<Seq<char>> = if d.full is Some {
            Seq::empty()
        } else {
            c.pending
        };
        if d.last is Some {
            with_full.lemma_flatten_push(rest);
        }
    }
}

/// Takes the messages in order and hands out the batches of paths to scan.
/// It is an error when the messages end before the controller is done.
pub fn controller(messages: Vec<CalcMessage>, limit: usize) -> (r: Result<
    Vec<Vec<String>>,
    ControllerError,
>)
    ensures
        ({
            let end = run(calc_message_views(messages@), limit as nat);
            if end.state.done {
                r matches Ok(b) && path_batches(b@) == end.batches
            } else {
                r == Err::<Vec<Vec<String>>, ControllerError>(ControllerError::ChannelClosed)
            }
        }),
{
    let ghost all = calc_message_views(messages@);
    let count = messages.len();
    let mut state = Controller::new(limit);
    let mut batches: Vec<Vec<String>> = Vec::new();
    proof {
        assert(path_batches(batches@) =~= Seq::<Seq<Seq<char>>>::empty());
    }
    for message in it: messages
        invariant
            it.seq() == messages@,
            all == calc_message_views(messages@),
            count == all.len(),
            state.limit() == limit,
            state@ == run(all.take(it.index() as int), limit as nat).state,
            path_batches(batches@) == run(all.take(it.index() as int), limit as nat).batches,
            it.index() > 0 ==> !run(all.take(it.index() - 1), limit as nat).state.done,
            !state@.done,
    {
        let ghost n = it.index() as int;
        proof {
            assert(all.take(n + 1).drop_last() =~= all.take(n));
            if n > 0 {
                assert(all.take(n).drop_last() =~= all.take(n - 1));
            }
            lemma_run(all.take(n), limit as nat);
        }
        let d = state.step(message);
        match d.full {
            Some(b) => {
                batches.push(b);
            },
            None => {},
        }
        match d.last {
            Some(b) => {
                batches.push(b);
                proof {
                    lemma_run_stays_done(all, n + 1, limit as nat);
                }
                return Ok(batches);
            },
            None => {},
        }
    }
    assert(all.take(all.len() as int) =~= all);
    Err(ControllerError::ChannelClosed)
}

/// Once the controller is done, further messages change nothing.
pub proof fn lemma_run_stays_done(msgs: Seq<CalcMessageView>, n: int, limit: nat)
    requires
        0 <= n <= msgs.len(),
        run(msgs.take(n), limit).state.done,
    ensures
        run(msgs, limit) == run(msgs.take(n), limit),
    decreases msgs.len(),
{
    if n < msgs.len() {
        assert(msgs.drop_last().take(n) =~= msgs.take(n));
        lemma_run_stays_done(msgs.drop_last(), n, limit);
    } else {
        assert(msgs.take(n) =~= msgs);
    }
}

} // verus!
