//! The tree walk: which of the entries that it comes by are sent on to be
//! scanned, and what it tells the controller.

use crate::calc::{calc_message_views, CalcMessage, CalcMessageView};
use crate::controller::{files_of, lemma_run, run};
use crate::extension::{category_of, Extension};
use vstd::prelude::*;

verus! {

/// One entry that the tree walk came by: its path, and whether it is a
/// directory.
pub struct WalkEntry {
    pub path: String,
    pub is_dir: bool,
}

/// The contents of a `WalkEntry`.
pub struct WalkEntryView {
    pub path: Seq<char>,
    pub is_dir: bool,
}

impl View for WalkEntry {
    type V = WalkEntryView;

    open spec fn view(&self) -> WalkEntryView {
        WalkEntryView { path: self.path@, is_dir: self.is_dir }
    }
}

/// The contents of a list of entries, in order.
pub open spec fn entry_views(v: Seq<WalkEntry>) -> Seq<WalkEntryView> {
    v.map_values(|e: WalkEntry| e@)
}

/// An entry that is sent on to be scanned: a picture or a movie, and no
/// directory.
pub open spec fn is_work(e: WalkEntryView) -> bool {
    !e.is_dir && category_of(e.path) != Extension::Other
}

/// The paths of the entries that are sent on, in order.
pub open spec fn walk_files(entries: Seq<WalkEntryView>) -> Seq<Seq<char>>
    decreases entries.len(),
{
    if entries.len() == 0 {
        Seq::empty()
    } else if is_work(entries.last()) {
        walk_files(entries.drop_last()).push(entries.last().path)
    } else {
        walk_files(entries.drop_last())
    }
}

/// The messages of a walk: one `File` for every path, and then, unless the
/// walk is part of a larger one, a `Finish` with their number.
pub open spec fn walk_messages(files: Seq<Seq<char>>, rec: bool) -> Seq<CalcMessageView> {
    let sent = files.map_values(|p: Seq<char>| CalcMessageView::File(p));
    if rec {
        sent
    } else {
        sent.push(CalcMessageView::Finish(files.len() as int))
    }
}

/// Not more entries are sent on than there are.
pub proof fn lemma_walk_files_bound(entries: Seq<WalkEntryView>)
    ensures
        walk_files(entries).len() <= entries.len(),
    decreases entries.len(),
{
    if entries.len() > 0 {
        lemma_walk_files_bound(entries.drop_last());
    }
}

/// Turns the entries of a tree walk into the messages for the controller:
/// directories and ignored files are dropped, every picture and movie is
/// sent as a `File`, and a walk that is not part of a larger one ends with a
/// `Finish` that carries the number of files sent. The number is returned
/// as well.
pub fn accm(entries: &Vec<WalkEntry>, rec: bool) -> (r: (Vec<CalcMessage>, i32))
    requires
        entries.len() <= i32::MAX,
    ensures
        r.1 == walk_files(entry_views(entries@)).len(),
        calc_message_views(r.0@) == walk_messages(walk_files(entry_views(entries@)), rec),
{
    let ghost all = entry_views(entries@);
    let mut out: Vec<CalcMessage> = Vec::new();
    let mut sum: i32 = 0;
    let mut i: usize = 0;
    proof {
        assert(calc_message_views(out@) =~= walk_messages(walk_files(all.take(0)), true));
    }
    while i < entries.len()
        invariant
            i <= entries.len(),
            entries.len() <= i32::MAX,
            all == entry_views(entries@),
            sum == walk_files(all.take(i as int)).len(),
            calc_message_views(out@) == walk_messages(walk_files(all.take(i as int)), true),
        decreases entries.len() - i,
    {
        proof {
            assert(all.take(i + 1).drop_last() =~= all.take(i as int));
            lemma_walk_files_bound(all.take(i as int));
        }
        let entry = &entries[i];
        if !entry.is_dir {
            match Extension::of_path(entry.path.as_str()) {
                Extension::Other => {},
                _ => {
                    let ghost held = calc_message_views(out@);
                    out.push(CalcMessage::File(entry.path.clone()));
                    sum = sum + 1;
                    proof {
                        assert(calc_message_views(out@) =~= held.push(
                            CalcMessageView::File(entry.path@),
                        ));
                    }
                },
            }
        }
        i = i + 1;
    }
    proof {
        assert(all.take(entries.len() as int) =~= all);
    }
    if !rec {
        out.push(CalcMessage::Finish(sum));
    }
    (out, sum)
}

/// While only `File` messages have come the controller is not done.
pub proof fn lemma_run_files_only(files: Seq<Seq<char>>, limit: nat)
    ensures
        !run(walk_messages(files, true), limit).state.done,
        run(walk_messages(files, true), limit).state.total is None,
    decreases files.len(),
{
    let msgs = walk_messages(files, true);
    if files.len() > 0 {
        assert(msgs.drop_last() =~= walk_messages(files.drop_last(), true));
        lemma_run_files_only(files.drop_last(), limit);
    }
}

/// What `File` messages carry is their paths.
pub proof fn lemma_files_of_sent(files: Seq<Seq<char>>)
    ensures
        files_of(walk_messages(files, true)) == files,
    decreases files.len(),
{
    let msgs = walk_messages(files, true);
    if files.len() > 0 {
        assert(msgs.drop_last() =~= walk_messages(files.drop_last(), true));
        lemma_files_of_sent(files.drop_last());
    } else {
        assert(files_of(msgs) =~= files);
    }
}

/// The paths in the messages of a walk are the walked files.
pub proof fn lemma_files_of_walk(files: Seq<Seq<char>>, rec: bool)
    ensures
        files_of(walk_messages(files, rec)) == files,
{
    lemma_files_of_sent(files);
    if !rec {
        assert(walk_messages(files, rec).drop_last() =~= walk_messages(files, true));
    }
}

/// The controller that takes the messages of a whole walk ends done, and
/// its batches hold the walked files, each once and in order.
pub proof fn lemma_walk_then_control(files: Seq<Seq<char>>, limit: nat)
    ensures
        run(walk_messages(files, false), limit).state.done,
        run(walk_messages(files, false), limit).batches.flatten() == files,
{
    let msgs = walk_messages(files, false);
    let sent = walk_messages(files, true);
    assert(msgs.drop_last() =~= sent);
    lemma_run_files_only(files, limit);
    if sent.len() > 0 {
        assert(!run(sent.drop_last(), limit).state.done) by {
            if run(sent.drop_last(), limit).state.done {
                assert(run(sent, limit) == run(sent.drop_last(), limit));
            }
        }
    }
    lemma_run(sent, limit);
    lemma_files_of_walk(files, true);
    lemma_run(msgs, limit);
    lemma_files_of_walk(files, false);
}

} // verus!
