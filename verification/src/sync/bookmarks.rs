//! One diff cycle: page through the upstream from its newest end until a
//! mirrored work shows, take in what is new, then remove what has left the
//! upstream's newest page.

use crate::pixiv::{PixivBookmarkPageBodyWork, WorkView};
use crate::sync::{Action, ActionView, Event, EventView};
use crate::text::has_text;
use vstd::prelude::*;

verus! {

/// What a diff cycle waits for.
#[derive(Debug, PartialEq, Eq, Structural, Clone, Copy)]
pub enum Phase {
    /// Nothing yet: the cycle has not begun.
    Start,
    /// A page of the upstream.
    Paging,
    /// Whether the mirror holds the work under the cursor.
    Probing,
    /// The mirror to take the new works in.
    Inserting,
    /// The works that the mirror took in last.
    Windowing,
    /// The removal of the id under the cursor.
    Deleting,
    /// Nothing more: the cycle is over.
    Done,
}

/// The state of a diff cycle between two steps.
pub struct DiffCycle {
    pub phase: Phase,
    /// The number of the page asked for last.
    pub page: i64,
    /// The ids on the upstream's newest page: the recent window.
    pub recent_ids: Vec<String>,
    /// The works of the page at hand.
    pub works: Vec<PixivBookmarkPageBodyWork>,
    /// Where in `works`, or in `doomed`, the cycle stands.
    pub cursor: usize,
    /// Whether no work of the page at hand has been found in the mirror.
    pub more: bool,
    /// The works found new so far, newest first.
    pub staged: Vec<PixivBookmarkPageBodyWork>,
    /// The ids to remove from the mirror.
    pub doomed: Vec<String>,
}

/// The mathematical value of a diff cycle's state.
pub ghost struct DiffCycleView {
    pub phase: Phase,
    pub page: i64,
    pub recent_ids: Seq<Seq<char>>,
    pub works: Seq<WorkView>,
    pub cursor: nat,
    pub more: bool,
    pub staged: Seq<WorkView>,
    pub doomed: Seq<Seq<char>>,
}

impl View for DiffCycle {
    type V = DiffCycleView;

    open spec fn view(&self) -> DiffCycleView {
        DiffCycleView {
            phase: self.phase,
            page: self.page,
            recent_ids: self.recent_ids.deep_view(),
            works: self.works.deep_view(),
            cursor: self.cursor as nat,
            more: self.more,
            staged: self.staged.deep_view(),
            doomed: self.doomed.deep_view(),
        }
    }
}

/// The ids of the works, in order.
pub open spec fn ids_of(works: Seq<WorkView>) -> Seq<Seq<char>> {
    Seq::new(works.len(), |i: int| works[i].id)
}

/// The ids of those works whose id is not in the window, in order.
pub open spec fn strangers(window: Seq<Seq<char>>, works: Seq<WorkView>) -> Seq<Seq<char>>
    decreases works.len(),
{
    if works.len() == 0 {
        Seq::empty()
    } else if window.contains(works.last().id) {
        strangers(window, works.drop_last())
    } else {
        strangers(window, works.drop_last()).push(works.last().id)
    }
}

/// A length as a limit: itself, or the largest limit where it is larger.
pub open spec fn limit_of(len: nat) -> i64 {
    if len > i64::MAX {
        i64::MAX
    } else {
        len as i64
    }
}

impl DiffCycleView {
    /// A cycle that has not begun.
    pub open spec fn fresh() -> DiffCycleView {
        DiffCycleView {
            phase: Phase::Start,
            page: 0,
            recent_ids: Seq::empty(),
            works: Seq::empty(),
            cursor: 0,
            more: false,
            staged: Seq::empty(),
            doomed: Seq::empty(),
        }
    }

    /// The cycle is over.
    pub open spec fn finish(self) -> (DiffCycleView, ActionView) {
        (DiffCycleView { phase: Phase::Done, ..self }, ActionView::Finish)
    }

    /// Paging and taking in are over: compare the recent window with what
    /// the mirror took in last, unless the window is empty.
    pub open spec fn compare(self) -> (DiffCycleView, ActionView) {
        if self.recent_ids.len() > 0 {
            (
                DiffCycleView { phase: Phase::Windowing, ..self },
                ActionView::FindRecent { limit: limit_of(self.recent_ids.len()) },
            )
        } else {
            self.finish()
        }
    }

    /// Paging is over: hand the new works over, if there are any.
    pub open spec fn settle(self) -> (DiffCycleView, ActionView) {
        if self.staged.len() > 0 {
            (
                DiffCycleView { phase: Phase::Inserting, staged: Seq::empty(), ..self },
                ActionView::Insert { works: self.staged },
            )
        } else {
            self.compare()
        }
    }

    /// The page at hand is done: go on to the next one where none of its
    /// works was found in the mirror.
    pub open spec fn turn_page(self) -> (DiffCycleView, ActionView) {
        if self.more && self.page < i64::MAX {
            (
                DiffCycleView { phase: Phase::Paging, page: (self.page + 1) as i64, ..self },
                ActionView::FetchPage { page: (self.page + 1) as i64 },
            )
        } else {
            self.settle()
        }
    }

    /// The work under the cursor is dealt with: look the next one up, or
    /// leave the page.
    pub open spec fn probe_next(self) -> (DiffCycleView, ActionView) {
        if self.cursor + 1 < self.works.len() {
            (
                DiffCycleView { cursor: self.cursor + 1, ..self },
                ActionView::Lookup { id: self.works[self.cursor as int + 1].id },
            )
        } else {
            self.turn_page()
        }
    }

    /// The state after an event, and what the engine asks for next. An event
    /// that the phase does not wait for ends the cycle.
    pub open spec fn after(self, event: EventView) -> (DiffCycleView, ActionView) {
        match (self.phase, event) {
            (Phase::Start, EventView::Begin) => (
                DiffCycleView { phase: Phase::Paging, page: 1, ..self },
                ActionView::FetchPage { page: 1 },
            ),
            (Phase::Paging, EventView::Page(page)) => {
                let seen = DiffCycleView {
                    recent_ids: if self.page == 1 {
                        ids_of(page.works)
                    } else {
                        self.recent_ids
                    },
                    works: page.works,
                    cursor: 0,
                    ..self
                };
                if page.works.len() == 0 {
                    seen.settle()
                } else {
                    (
                        DiffCycleView { phase: Phase::Probing, more: true, ..seen },
                        ActionView::Lookup { id: page.works[0].id },
                    )
                }
            },
            (Phase::Probing, EventView::Found) => if self.cursor < self.works.len() {
                DiffCycleView { more: false, ..self }.probe_next()
            } else {
                self.finish()
            },
            (Phase::Probing, EventView::Missing) => if self.cursor < self.works.len() {
                DiffCycleView {
                    staged: self.staged.push(self.works[self.cursor as int]),
                    ..self
                }.probe_next()
            } else {
                self.finish()
            },
            (Phase::Probing, EventView::LookupFailed) => DiffCycleView {
                more: false,
                ..self
            }.turn_page(),
            (Phase::Inserting, EventView::Inserted) => self.compare(),
            (Phase::Inserting, EventView::InsertFailed) => self.compare(),
            (Phase::Windowing, EventView::Recent(works)) => {
                let doomed = strangers(self.recent_ids, works);
                if doomed.len() > 0 {
                    (
                        DiffCycleView { phase: Phase::Deleting, doomed, cursor: 0, ..self },
                        ActionView::Delete { id: doomed[0] },
                    )
                } else {
                    DiffCycleView { doomed, cursor: 0, ..self }.finish()
                }
            },
            (Phase::Deleting, EventView::Deleted) => if self.cursor + 1 < self.doomed.len() {
                (
                    DiffCycleView { cursor: self.cursor + 1, ..self },
                    ActionView::Delete { id: self.doomed[self.cursor as int + 1] },
                )
            } else {
                self.finish()
            },
            _ => self.finish(),
        }
    }
}

/// The ids of the works, in order.
pub fn work_ids(works: &Vec<PixivBookmarkPageBodyWork>) -> (ids: Vec<String>)
    ensures
        ids.deep_view() == ids_of(works.deep_view()),
{
    let mut ids: Vec<String> = Vec::new();
    let mut i: usize = 0;
    while i < works.len()
        invariant
            i <= works.len(),
            ids.len() == i,
            forall|j: int| 0 <= j < i ==> ids[j]@ == works[j]@.id,
        decreases works.len() - i,
    {
        ids.push(works[i].id.clone());
        i += 1;
    }
    assert(ids.deep_view() =~= ids_of(works.deep_view()));
    ids
}

/// The ids of those works whose id is not in the window, in order: what a
/// mirror holds among its newest works and the upstream no longer shows.
pub fn removed_ids(window: &Vec<String>, works: &Vec<PixivBookmarkPageBodyWork>) -> (ids: Vec<
    String,
>)
    ensures
        ids.deep_view() == strangers(window.deep_view(), works.deep_view()),
{
    let mut ids: Vec<String> = Vec::new();
    let ghost all = works.deep_view();
    let mut i: usize = 0;
    assert(all.take(0) =~= Seq::<WorkView>::empty());
    while i < works.len()
        invariant
            i <= works.len(),
            all == works.deep_view(),
            ids.deep_view() == strangers(window.deep_view(), all.take(i as int)),
        decreases works.len() - i,
    {
        let ghost before = ids.deep_view();
        assert(all.take(i + 1).drop_last() =~= all.take(i as int));
        if !has_text(window, &works[i].id) {
            ids.push(works[i].id.clone());
            assert(ids.deep_view() =~= before.push(all[i as int].id));
        }
        i += 1;
    }
    assert(all.take(i as int) =~= all);
    ids
}

impl DiffCycle {
    /// A cycle that has not begun. Its first event is `Begin`.
    pub fn new() -> (cycle: Self)
        ensures
            cycle@ == DiffCycleView::fresh(),
    {
        let cycle = DiffCycle {
            phase: Phase::Start,
            page: 0,
            recent_ids: Vec::new(),
            works: Vec::new(),
            cursor: 0,
            more: false,
            staged: Vec::new(),
            doomed: Vec::new(),
        };
        assert(cycle@.recent_ids =~= Seq::empty());
        assert(cycle@.works =~= Seq::empty());
        assert(cycle@.staged =~= Seq::empty());
        assert(cycle@.doomed =~= Seq::empty());
        cycle
    }

    fn finish(self) -> (next: (DiffCycle, Action))
        ensures
            (next.0@, next.1@) == self@.finish(),
    {
        let mut cycle = self;
        cycle.phase = Phase::Done;
        (cycle, Action::Finish)
    }

    fn compare(self) -> (next: (DiffCycle, Action))
        ensures
            (next.0@, next.1@) == self@.compare(),
    {
        let mut cycle = self;
        let len = cycle.recent_ids.len();
        if len > 0 {
            let limit: i64 = if len as u128 > i64::MAX as u128 {
                i64::MAX
            } else {
                len as i64
            };
            cycle.phase = Phase::Windowing;
            (cycle, Action::FindRecent { limit })
        } else {
            cycle.finish()
        }
    }

    fn settle(self) -> (next: (DiffCycle, Action))
        ensures
            (next.0@, next.1@) == self@.settle(),
    {
        let mut cycle = self;
        if cycle.staged.len() > 0 {
            let mut works: Vec<PixivBookmarkPageBodyWork> = Vec::new();
            core::mem::swap(&mut works, &mut cycle.staged);
            cycle.phase = Phase::Inserting;
            assert(cycle@.staged =~= Seq::empty());
            (cycle, Action::Insert { works })
        } else {
            cycle.compare()
        }
    }

    fn turn_page(self) -> (next: (DiffCycle, Action))
        ensures
            (next.0@, next.1@) == self@.turn_page(),
    {
        let mut cycle = self;
        if cycle.more && cycle.page < i64::MAX {
            cycle.phase = Phase::Paging;
            cycle.page = cycle.page + 1;
            let page = cycle.page;
            (cycle, Action::FetchPage { page })
        } else {
            cycle.settle()
        }
    }

    fn probe_next(self) -> (next: (DiffCycle, Action))
        ensures
            (next.0@, next.1@) == self@.probe_next(),
    {
        let mut cycle = self;
        if cycle.cursor < cycle.works.len() && cycle.cursor + 1 < cycle.works.len() {
            cycle.cursor = cycle.cursor + 1;
            let id = cycle.works[cycle.cursor].id.clone();
            (cycle, Action::Lookup { id })
        } else {
            cycle.turn_page()
        }
    }

    /// Takes the event in and says what to do next.
    pub fn step(self, event: Event) -> (next: (DiffCycle, Action))
        ensures
            (next.0@, next.1@) == self@.after(event@),
    {
        let mut cycle = self;
        match (cycle.phase, event) {
            (Phase::Start, Event::Begin) => {
                cycle.phase = Phase::Paging;
                cycle.page = 1;
                (cycle, Action::FetchPage { page: 1 })
            },
            (Phase::Paging, Event::Page(page)) => {
                if cycle.page == 1 {
                    cycle.recent_ids = work_ids(&page.body.works);
                }
                cycle.works = page.body.works;
                cycle.cursor = 0;
                if cycle.works.len() == 0 {
                    cycle.settle()
                } else {
                    cycle.phase = Phase::Probing;
                    cycle.more = true;
                    let id = cycle.works[0].id.clone();
                    (cycle, Action::Lookup { id })
                }
            },
            (Phase::Probing, Event::Found) => {
                if cycle.cursor < cycle.works.len() {
                    cycle.more = false;
                    cycle.probe_next()
                } else {
                    cycle.finish()
                }
            },
            (Phase::Probing, Event::Missing) => {
                if cycle.cursor < cycle.works.len() {
                    let work = cycle.works[cycle.cursor].clone();
                    let ghost before = cycle.staged.deep_view();
                    cycle.staged.push(work);
                    assert(cycle.staged.deep_view() =~= before.push(work@));
                    cycle.probe_next()
                } else {
                    cycle.finish()
                }
            },
            (Phase::Probing, Event::LookupFailed) => {
                cycle.more = false;
                cycle.turn_page()
            },
            (Phase::Inserting, Event::Inserted) => cycle.compare(),
            (Phase::Inserting, Event::InsertFailed) => cycle.compare(),
            (Phase::Windowing, Event::Recent(works)) => {
                cycle.doomed = removed_ids(&cycle.recent_ids, &works);
                cycle.cursor = 0;
                if cycle.doomed.len() > 0 {
                    cycle.phase = Phase::Deleting;
                    let id = cycle.doomed[0].clone();
                    (cycle, Action::Delete { id })
                } else {
                    cycle.finish()
                }
            },
            (Phase::Deleting, Event::Deleted) => {
                if cycle.cursor < cycle.doomed.len() && cycle.cursor + 1 < cycle.doomed.len() {
                    cycle.cursor = cycle.cursor + 1;
                    let id = cycle.doomed[cycle.cursor].clone();
                    (cycle, Action::Delete { id })
                } else {
                    cycle.finish()
                }
            },
            _ => cycle.finish(),
        }
    }
}

} // verus!
