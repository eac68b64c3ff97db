//! The reconciliation engine: what to ask of the upstream and of the mirror,
//! one step at a time, to bring the mirror up to the upstream.

pub mod backfill;
pub mod bookmark_tags;
pub mod bookmarks;
pub mod laws;
pub mod replay;
pub mod translations;

use crate::pixiv::{PageView, PixivBookmarkPageBodyWork, PixivBookmarks, WorkView};
use vstd::prelude::*;

verus! {

/// What the engine asks its driver to do next.
pub enum Action {
    /// Fetch the page with this number from the upstream; page 1 is the newest.
    FetchPage { page: i64 },
    /// Look the work with this id up in the mirror.
    Lookup { id: String },
    /// Take these works, newest first, into the mirror.
    Insert { works: Vec<PixivBookmarkPageBodyWork> },
    /// Read the works that the mirror took in last, newest first, at most
    /// this many.
    FindRecent { limit: i64 },
    /// Remove the work with this id from the mirror.
    Delete { id: String },
    /// Nothing more: the run is over.
    Finish,
}

/// What the driver reports back.
pub enum Event {
    /// The run starts.
    Begin,
    /// The upstream answered the page request.
    Page(PixivBookmarks),
    /// The page request failed.
    FetchFailed,
    /// The mirror holds the work that was looked up.
    Found,
    /// The mirror does not hold it.
    Missing,
    /// The lookup itself failed.
    LookupFailed,
    /// The works were taken in; those that the mirror held already were
    /// left out.
    Inserted,
    /// The mirror refused the works: none was taken in.
    InsertFailed,
    /// The works that the mirror took in last.
    Recent(Vec<PixivBookmarkPageBodyWork>),
    /// They could not be read.
    RecentFailed,
    /// The removal was tried, whatever came of it.
    Deleted,
}

/// The mathematical value of an action.
pub ghost enum ActionView {
    FetchPage { page: i64 },
    Lookup { id: Seq<char> },
    Insert { works: Seq<WorkView> },
    FindRecent { limit: i64 },
    Delete { id: Seq<char> },
    Finish,
}

/// The mathematical value of an event.
pub ghost enum EventView {
    Begin,
    Page(PageView),
    FetchFailed,
    Found,
    Missing,
    LookupFailed,
    Inserted,
    InsertFailed,
    Recent(Seq<WorkView>),
    RecentFailed,
    Deleted,
}

impl View for Action {
    type V = ActionView;

    open spec fn view(&self) -> ActionView {
        match self {
            Action::FetchPage { page } => ActionView::FetchPage { page: *page },
            Action::Lookup { id } => ActionView::Lookup { id: id@ },
            Action::Insert { works } => ActionView::Insert { works: works.deep_view() },
            Action::FindRecent { limit } => ActionView::FindRecent { limit: *limit },
            Action::Delete { id } => ActionView::Delete { id: id@ },
            Action::Finish => ActionView::Finish,
        }
    }
}

impl View for Event {
    type V = EventView;

    open spec fn view(&self) -> EventView {
        match self {
            Event::Begin => EventView::Begin,
            Event::Page(page) => EventView::Page(page@),
            Event::FetchFailed => EventView::FetchFailed,
            Event::Found => EventView::Found,
            Event::Missing => EventView::Missing,
            Event::LookupFailed => EventView::LookupFailed,
            Event::Inserted => EventView::Inserted,
            Event::InsertFailed => EventView::InsertFailed,
            Event::Recent(works) => EventView::Recent(works.deep_view()),
            Event::RecentFailed => EventView::RecentFailed,
            Event::Deleted => EventView::Deleted,
        }
    }
}

} // verus!
