//! The listing of a remote folder, page by page, as messages for the
//! record of transferred files.

use crate::sqlite::{message_views, Message, MessageView};
use crate::text::chars_of;
use vstd::prelude::*;

verus! {

/// One entry of a listing of a remote folder.
pub enum RemoteEntry {
    /// A file, with its content hash where the store gave one.
    File { name: String, content_hash: Option<String> },
    /// A folder or something else that is no file.
    Other,
}

/// The contents of a `RemoteEntry`.
pub enum RemoteEntryView {
    File { name: Seq<char>, content_hash: Option<Seq<char>> },
    Other,
}

impl View for RemoteEntry {
    type V = RemoteEntryView;

    open spec fn view(&self) -> RemoteEntryView {
        match self {
            RemoteEntry::File { name, content_hash } => RemoteEntryView::File {
                name: name@,
                content_hash: match content_hash {
                    Some(h) => Some(h@),
                    None => None,
                },
            },
            RemoteEntry::Other => RemoteEntryView::Other,
        }
    }
}

/// One page of a listing: its entries, and whether more pages follow.
pub struct ListPage {
    pub entries: Vec<RemoteEntry>,
    pub has_more: bool,
}

/// The contents of a `ListPage`.
pub struct ListPageView {
    pub entries: Seq<RemoteEntryView>,
    pub has_more: bool,
}

impl View for ListPage {
    type V = ListPageView;

    open spec fn view(&self) -> ListPageView {
        ListPageView {
            entries: self.entries@.map_values(|e: RemoteEntry| e@),
            has_more: self.has_more,
        }
    }
}

/// What a request for a page gave: the page, or the reason of the failure.
pub open spec fn fetch_view(f: Result<ListPage, String>) -> Result<ListPageView, Seq<char>> {
    match f {
        Ok(p) => Ok(p@),
        Err(e) => Err(e@),
    }
}

/// The contents of a list of fetched pages, in order.
pub open spec fn fetch_views(v: Seq<Result<ListPage, String>>) -> Seq<
    Result<ListPageView, Seq<char>>,
> {
    v.map_values(|f: Result<ListPage, String>| fetch_view(f))
}

/// The path that is asked for: the root is written as the empty path.
pub open spec fn requested(path: Seq<char>) -> Seq<char> {
    if path == seq!['/'] {
        Seq::empty()
    } else {
        path
    }
}

/// The path to ask the remote store for.
pub fn requested_path(path: &str) -> (r: String)
    ensures
        r@ == requested(path@),
{
    let cs = chars_of(path);
    if cs.len() == 1 && cs[0] == '/' {
        assert(path@ =~= seq!['/']);
        String::new()
    } else {
        path.to_owned()
    }
}

/// The messages end with one that stops the listing.
pub open spec fn stopped(msgs: Seq<MessageView>) -> bool {
    msgs.len() > 0 && !(msgs.last() is Progress)
}

/// The messages for the entries of a page: a `Progress` for every file with
/// a content hash. The first file without one gives an `Abort` that names
/// it, and the entries behind it are not looked at.
pub open spec fn entry_messages(entries: Seq<RemoteEntryView>) -> Seq<MessageView>
    decreases entries.len(),
{
    if entries.len() == 0 {
        Seq::empty()
    } else {
        let before = entry_messages(entries.drop_last());
        if stopped(before) {
            before
        } else {
            match entries.last() {
                RemoteEntryView::File { name, content_hash: Some(hash) } => before.push(
                    MessageView::Progress(name, hash),
                ),
                RemoteEntryView::File { name, content_hash: None } => before.push(
                    MessageView::Abort("content hash was empty: "@ + name),
                ),
                RemoteEntryView::Other => before,
            }
        }
    }
}

/// The messages for a page: those for its entries and, behind the last page
/// of a listing that went well, a `Finish`.
pub open spec fn page_messages(page: ListPageView) -> Seq<MessageView> {
    let msgs = entry_messages(page.entries);
    if !stopped(msgs) && !page.has_more {
        msgs.push(MessageView::Finish)
    } else {
        msgs
    }
}


/// Whether the listing is to be asked for another page.
pub fn wants_more(messages: &Vec<Message>) -> (r: bool)
    ensures
        r == !stopped(message_views(messages@)),
{
    let n = messages.len();
    if n == 0 {
        return true;
    }
    match &messages[n - 1] {
        Message::Progress(_, _) => true,
        _ => false,
    }
}

/// Turns one page of a listing into messages and puts them behind those
/// that are there. Behind messages that have stopped the listing nothing is
/// put.
pub fn push_page(page: ListPage, out: &mut Vec<Message>)
    ensures
        message_views(final(out)@) == if stopped(message_views(old(out)@)) {
            message_views(old(out)@)
        } else {
            message_views(old(out)@) + page_messages(page@)
        },
{
    if !wants_more(out) {
        return ;
    }
    let ghost all = page@.entries;
    let ListPage { entries, has_more } = page;
    let mut local: Vec<Message> = Vec::new();
    proof {
        assert(message_views(local@) =~= Seq::<MessageView>::empty());
    }
    for entry in it: entries
        invariant
            it.seq() == entries@,
            all == entries@.map_values(|e: RemoteEntry| e@),
            message_views(local@) == entry_messages(all.take(it.index() as int)),
    {
        let ghost n = it.index() as int;
        proof {
            assert(all.take(n + 1).drop_last() =~= all.take(n));
        }
        if wants_more(&local) {
            match entry {
                RemoteEntry::File { name, content_hash } => match content_hash {
                    Some(hash) => {
                        local.push(Message::Progress(name, hash));
                    },
                    None => {
                        let mut text = "content hash was empty: ".to_owned();
                        text.append(name.as_str());
                        local.push(Message::Abort(text));
                    },
                },
                RemoteEntry::Other => {},
            }
        }
    }
    assert(all.take(all.len() as int) =~= all);
    if wants_more(&local) && !has_more {
        local.push(Message::Finish);
    }
    out.append(&mut local);
}

/// The messages for a listing that was fetched page by page. A failed
/// request gives an `Abort` with its reason. Nothing follows an `Abort` or
/// a `Finish`.
pub open spec fn listing_messages(pages: Seq<Result<ListPageView, Seq<char>>>) -> Seq<MessageView>
    decreases pages.len(),
{
    if pages.len() == 0 {
        Seq::empty()
    } else {
        with_fetched(listing_messages(pages.drop_last()), pages.last())
    }
}

/// The messages after one more request for a page: its page's messages, or
/// an `Abort` with the reason for which it failed. Nothing follows messages
/// that have stopped the listing.
pub open spec fn with_fetched(
    before: Seq<MessageView>,
    fetched: Result<ListPageView, Seq<char>>,
) -> Seq<MessageView> {
    if stopped(before) {
        before
    } else {
        match fetched {
            Ok(page) => before + page_messages(page),
            Err(e) => before.push(MessageView::Abort("request failure: "@ + e)),
        }
    }
}

/// Takes what a request for a page gave and puts its messages behind those
/// that are there.
pub fn push_fetched(fetched: Result<ListPage, String>, out: &mut Vec<Message>)
    ensures
        message_views(final(out)@) == with_fetched(message_views(old(out)@), fetch_view(fetched)),
{
    if !wants_more(out) {
        return ;
    }
    match fetched {
        Ok(page) => {
            push_page(page, out);
        },
        Err(e) => {
            let ghost held = message_views(out@);
            let mut text = "request failure: ".to_owned();
            text.append(e.as_str());
            out.push(Message::Abort(text));
            assert(message_views(out@) =~= held.push(MessageView::Abort(text@)));
        },
    }
}

} // verus!
