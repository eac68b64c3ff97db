//! The backfill of an empty mirror: learn the size of the upstream from its
//! newest page, ask for every older page from the last one down, then take
//! the works of all pages in, the oldest first.

use crate::pixiv::{PixivBookmarkPageBodyWork, WorkView, PIXIV_BOOKMARKS_PER_PAGE};
use crate::sync::{Action, ActionView, Event, EventView};
use vstd::prelude::*;

verus! {

/// What a backfill waits for.
#[derive(Debug, PartialEq, Eq, Structural, Clone, Copy)]
pub enum BackfillPhase {
    /// Nothing yet: the backfill has not begun.
    Start,
    /// The newest page, which tells the size of the upstream.
    First,
    /// An older page.
    Page,
    /// The mirror to take the works of all pages in.
    Insert,
    /// Nothing more: every page was answered and the works were taken in.
    Done,
    /// Nothing more: a page request failed, or the mirror refused the works.
    /// The mirror is as it was.
    Failed,
}

/// The state of a backfill between two steps.
pub struct Backfill {
    pub phase: BackfillPhase,
    /// The number of the page asked for last.
    pub page: i64,
    /// The works of the newest page.
    pub first: Vec<PixivBookmarkPageBodyWork>,
    /// The works of the older pages answered so far, newest first.
    pub older: Vec<PixivBookmarkPageBodyWork>,
}

/// The mathematical value of a backfill's state.
pub ghost struct BackfillView {
    pub phase: BackfillPhase,
    pub page: i64,
    pub first: Seq<WorkView>,
    pub older: Seq<WorkView>,
}

impl View for Backfill {
    type V = BackfillView;

    open spec fn view(&self) -> BackfillView {
        BackfillView {
            phase: self.phase,
            page: self.page,
            first: self.first.deep_view(),
            older: self.older.deep_view(),
        }
    }
}

/// The number of pages that a collection of `total` works fills: `total`
/// divided by the size of a page, rounded up.
pub open spec fn page_count(total: u64) -> i64 {
    if total % (PIXIV_BOOKMARKS_PER_PAGE as u64) == 0 {
        (total / (PIXIV_BOOKMARKS_PER_PAGE as u64)) as i64
    } else {
        (total / (PIXIV_BOOKMARKS_PER_PAGE as u64) + 1) as i64
    }
}

/// The number of pages that a collection of `total` works fills.
pub fn total_pages(total: u64) -> (pages: i64)
    ensures
        pages == page_count(total),
        (pages - 1) * PIXIV_BOOKMARKS_PER_PAGE < total <= pages * PIXIV_BOOKMARKS_PER_PAGE,
{
    let full = total / 100;
    if total % 100 == 0 {
        full as i64
    } else {
        (full + 1) as i64
    }
}

impl BackfillView {
    /// A backfill that has not begun.
    pub open spec fn fresh() -> BackfillView {
        BackfillView {
            phase: BackfillPhase::Start,
            page: 0,
            first: Seq::empty(),
            older: Seq::empty(),
        }
    }

    /// The backfill gives up.
    pub open spec fn fail(self) -> (BackfillView, ActionView) {
        (BackfillView { phase: BackfillPhase::Failed, ..self }, ActionView::Finish)
    }

    /// Every page is answered: hand the works of all of them over, newest
    /// first, unless there are none.
    pub open spec fn hand(self) -> (BackfillView, ActionView) {
        if self.first.len() + self.older.len() > 0 {
            (
                BackfillView {
                    phase: BackfillPhase::Insert,
                    first: Seq::empty(),
                    older: Seq::empty(),
                    ..self
                },
                ActionView::Insert { works: self.first + self.older },
            )
        } else {
            (BackfillView { phase: BackfillPhase::Done, ..self }, ActionView::Finish)
        }
    }

    /// The page at hand is answered: ask for the one before it, down to
    /// page 2.
    pub open spec fn descend(self) -> (BackfillView, ActionView) {
        if self.page > 2 {
            (
                BackfillView { phase: BackfillPhase::Page, page: (self.page - 1) as i64, ..self },
                ActionView::FetchPage { page: (self.page - 1) as i64 },
            )
        } else {
            self.hand()
        }
    }

    /// The state after an event, and what the backfill asks for next. It
    /// asks for every page, from the last one down to the second, before it
    /// hands any work to the mirror: so a page request that fails leaves the
    /// mirror as it was. An event that the phase does not wait for makes it
    /// give up.
    pub open spec fn after(self, event: EventView) -> (BackfillView, ActionView) {
        match (self.phase, event) {
            (BackfillPhase::Start, EventView::Begin) => (
                BackfillView { phase: BackfillPhase::First, page: 1, ..self },
                ActionView::FetchPage { page: 1 },
            ),
            (BackfillPhase::First, EventView::Page(page)) => {
                let pages = page_count(page.total);
                let seen = BackfillView { first: page.works, older: Seq::empty(), ..self };
                if pages > 1 {
                    (
                        BackfillView { phase: BackfillPhase::Page, page: pages, ..seen },
                        ActionView::FetchPage { page: pages },
                    )
                } else {
                    seen.hand()
                }
            },
            (BackfillPhase::Page, EventView::Page(page)) => BackfillView {
                older: page.works + self.older,
                ..self
            }.descend(),
            (BackfillPhase::Insert, EventView::Inserted) => (
                BackfillView { phase: BackfillPhase::Done, ..self },
                ActionView::Finish,
            ),
            (BackfillPhase::Done, _) => (self, ActionView::Finish),
            _ => self.fail(),
        }
    }
}

impl Backfill {
    /// A backfill that has not begun. Its first event is `Begin`.
    pub fn new() -> (backfill: Self)
        ensures
            backfill@ == BackfillView::fresh(),
    {
        let backfill = Backfill {
            phase: BackfillPhase::Start,
            page: 0,
            first: Vec::new(),
            older: Vec::new(),
        };
        assert(backfill@.first =~= Seq::empty());
        assert(backfill@.older =~= Seq::empty());
        backfill
    }

    /// Whether every page was answered and the works were taken in.
    pub fn succeeded(&self) -> (yes: bool)
        ensures
            yes == (self@.phase == BackfillPhase::Done),
    {
        self.phase == BackfillPhase::Done
    }

    fn fail(self) -> (next: (Backfill, Action))
        ensures
            (next.0@, next.1@) == self@.fail(),
    {
        let mut backfill = self;
        backfill.phase = BackfillPhase::Failed;
        (backfill, Action::Finish)
    }

    fn hand(self) -> (next: (Backfill, Action))
        ensures
            (next.0@, next.1@) == self@.hand(),
    {
        let mut backfill = self;
        if backfill.first.len() > 0 || backfill.older.len() > 0 {
            let mut works: Vec<PixivBookmarkPageBodyWork> = Vec::new();
            core::mem::swap(&mut works, &mut backfill.first);
            works.append(&mut backfill.older);
            backfill.phase = BackfillPhase::Insert;
            assert(backfill@.first =~= Seq::empty());
            assert(backfill@.older =~= Seq::empty());
            assert(works.deep_view() =~= self@.first + self@.older);
            (backfill, Action::Insert { works })
        } else {
            backfill.phase = BackfillPhase::Done;
            (backfill, Action::Finish)
        }
    }

    fn descend(self) -> (next: (Backfill, Action))
        ensures
            (next.0@, next.1@) == self@.descend(),
    {
        let mut backfill = self;
        if backfill.page > 2 {
            backfill.phase = BackfillPhase::Page;
            backfill.page = backfill.page - 1;
            let page = backfill.page;
            (backfill, Action::FetchPage { page })
        } else {
            backfill.hand()
        }
    }

    /// Takes the event in and says what to do next.
    pub fn step(self, event: Event) -> (next: (Backfill, Action))
        ensures
            (next.0@, next.1@) == self@.after(event@),
    {
        let mut backfill = self;
        match (backfill.phase, event) {
            (BackfillPhase::Start, Event::Begin) => {
                backfill.phase = BackfillPhase::First;
                backfill.page = 1;
                (backfill, Action::FetchPage { page: 1 })
            },
            (BackfillPhase::First, Event::Page(page)) => {
                let pages = total_pages(page.body.total);
                backfill.first = page.body.works;
                backfill.older = Vec::new();
                assert(backfill@.older =~= Seq::empty());
                if pages > 1 {
                    backfill.phase = BackfillPhase::Page;
                    backfill.page = pages;
                    (backfill, Action::FetchPage { page: pages })
                } else {
                    backfill.hand()
                }
            },
            (BackfillPhase::Page, Event::Page(page)) => {
                let mut works = page.body.works;
                works.append(&mut backfill.older);
                backfill.older = works;
                assert(backfill@.older =~= page@.works + self@.older);
                backfill.descend()
            },
            (BackfillPhase::Insert, Event::Inserted) => {
                backfill.phase = BackfillPhase::Done;
                (backfill, Action::Finish)
            },
            (BackfillPhase::Done, _) => (backfill, Action::Finish),
            _ => backfill.fail(),
        }
    }
}

} // verus!
