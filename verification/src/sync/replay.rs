//! The engine run against a mirror in memory and a record of the upstream's
//! answers, and what such a run comes to.

use crate::mongodb::bookmarks::{
    expelled, found, holds, taken_in, verdict, Bookmarks, MirrorView,
};
use crate::mongodb::{MongoDB, StoreError};
use crate::pixiv::{PageView, PixivBookmarks, WorkView};
use crate::routes::bookmarks::PaginationSort;
use crate::sync::backfill::{page_count, Backfill, BackfillPhase, BackfillView};
use crate::sync::bookmarks::{
    ids_of, limit_of, strangers, work_ids, DiffCycle, DiffCycleView, Phase,
};
use crate::sync::{Action, ActionView, Event, EventView};
use crate::text::clone_texts;
use vstd::prelude::*;

verus! {

/// The works that the mirror does not hold, in order.
pub open spec fn unseen(works: Seq<WorkView>, held: Seq<WorkView>) -> Seq<WorkView>
    decreases works.len(),
{
    if works.len() == 0 {
        works
    } else if holds(held, works.last().id) {
        unseen(works.drop_last(), held)
    } else {
        unseen(works.drop_last(), held).push(works.last())
    }
}

/// Whether the mirror holds none of the works.
pub open spec fn all_new(works: Seq<WorkView>, held: Seq<WorkView>) -> bool {
    forall|i: int| 0 <= i < works.len() ==> !holds(held, (#[trigger] works[i]).id)
}

/// The answer on record for a page, if the page was answered.
pub open spec fn answer_of(answers: Seq<Option<PageView>>, page: int) -> Option<PageView> {
    if 1 <= page <= answers.len() {
        answers[page - 1]
    } else {
        None
    }
}

/// What paging comes to.
pub ghost struct Survey {
    /// The works found new, newest first.
    pub staged: Seq<WorkView>,
    /// The number of pages asked for.
    pub fetches: nat,
    /// Whether a page request failed.
    pub failed: bool,
}

/// What paging from the page `page` on comes to: each page is asked for in
/// turn, and the next one only where the page at hand held works and the
/// mirror held none of them.
pub open spec fn survey(answers: Seq<Option<PageView>>, held: Seq<WorkView>, page: int) -> Survey
    decreases answers.len() - page + 1,
{
    if !(1 <= page <= answers.len()) || answers[page - 1] is None {
        Survey { staged: Seq::empty(), fetches: 1, failed: true }
    } else {
        let works = answers[page - 1]->0.works;
        if works.len() > 0 && all_new(works, held) && page < i64::MAX {
            let rest = survey(answers, held, page + 1);
            Survey {
                staged: unseen(works, held) + rest.staged,
                fetches: rest.fetches + 1,
                failed: rest.failed,
            }
        } else {
            Survey { staged: unseen(works, held), fetches: 1, failed: false }
        }
    }
}

/// The mirror without the works of these ids, let go in order.
pub open spec fn expelled_all(mirror: MirrorView, ids: Seq<Seq<char>>) -> MirrorView
    decreases ids.len(),
{
    if ids.len() == 0 {
        mirror
    } else {
        expelled(expelled_all(mirror, ids.drop_last()), ids.last())
    }
}

/// What one diff cycle comes to.
pub ghost struct CycleOutcome {
    /// The mirror after the cycle.
    pub mirror: MirrorView,
    /// The number of pages asked for.
    pub fetches: nat,
    /// The works offered to the mirror, newest first.
    pub staged: Seq<WorkView>,
    /// The ids removed from the mirror, in order.
    pub removed: Seq<Seq<char>>,
    /// Whether the cycle ran to its end: no page request failed.
    pub completed: bool,
}

/// The recent window of a cycle: the ids on the upstream's newest page.
pub open spec fn window_of(answers: Seq<Option<PageView>>) -> Seq<Seq<char>> {
    match answer_of(answers, 1) {
        Some(answer) => ids_of(answer.works),
        None => Seq::empty(),
    }
}

/// The ids that a cycle removes from a mirror: of as many of its newest
/// works as the window has ids, those that the window does not show.
pub open spec fn vanished(mirror: MirrorView, window: Seq<Seq<char>>) -> Seq<Seq<char>> {
    strangers(
        window,
        found(mirror.works, None, 0, limit_of(window.len()), PaginationSort::Descending),
    )
}

/// What a diff cycle at the time `now` comes to, on a mirror and against the
/// upstream's answers. Where a page request fails the mirror stays as it is.
/// Else the works found new are offered to the mirror, and from the mirror
/// so grown the works that have left the recent window are removed.
pub open spec fn cycle_outcome(mirror: MirrorView, answers: Seq<Option<PageView>>, now: i64) -> CycleOutcome {
    let paging = survey(answers, mirror.works, 1);
    if paging.failed {
        CycleOutcome {
            mirror,
            fetches: paging.fetches,
            staged: Seq::empty(),
            removed: Seq::empty(),
            completed: false,
        }
    } else {
        let grown = taken_in(mirror, paging.staged, now);
        let removed = vanished(grown, window_of(answers));
        CycleOutcome {
            mirror: expelled_all(grown, removed),
            fetches: paging.fetches,
            staged: paging.staged,
            removed,
            completed: true,
        }
    }
}

/// Paging stands before the request for a page: what was found so far and
/// what paging from that page on comes to make up the whole.
pub open spec fn at_page(
    cycle: DiffCycleView,
    action: ActionView,
    answers: Seq<Option<PageView>>,
    held: Seq<WorkView>,
) -> bool {
    let whole = survey(answers, held, 1);
    let rest = survey(answers, held, cycle.page as int);
    &&& cycle.phase == Phase::Paging
    &&& action == ActionView::FetchPage { page: cycle.page }
    &&& 1 <= cycle.page <= answers.len() + 1
    &&& whole.failed == rest.failed
    &&& whole.staged == cycle.staged + rest.staged
    &&& whole.fetches == cycle.page - 1 + rest.fetches
    &&& cycle.page > 1 ==> cycle.recent_ids == window_of(answers)
}

/// Paging stands before the lookup of a work of the page at hand; `staged`
/// is what was found on the pages before it.
pub open spec fn at_work(
    cycle: DiffCycleView,
    action: ActionView,
    answers: Seq<Option<PageView>>,
    held: Seq<WorkView>,
    staged: Seq<WorkView>,
) -> bool {
    let whole = survey(answers, held, 1);
    let rest = survey(answers, held, cycle.page as int);
    &&& cycle.phase == Phase::Probing
    &&& cycle.cursor < cycle.works.len()
    &&& action == ActionView::Lookup { id: cycle.works[cycle.cursor as int].id }
    &&& 1 <= cycle.page <= answers.len()
    &&& answers[cycle.page - 1] is Some
    &&& answers[cycle.page - 1]->0.works == cycle.works
    &&& cycle.recent_ids == window_of(answers)
    &&& cycle.more == all_new(cycle.works.take(cycle.cursor as int), held)
    &&& cycle.staged == staged + unseen(cycle.works.take(cycle.cursor as int), held)
    &&& whole.failed == rest.failed
    &&& whole.staged == staged + rest.staged
    &&& whole.fetches == cycle.page - 1 + rest.fetches
}

/// What the engine asks for when paging is over without a failure.
pub open spec fn settled(staged: Seq<WorkView>, window: Seq<Seq<char>>) -> (Phase, ActionView) {
    if staged.len() > 0 {
        (Phase::Inserting, ActionView::Insert { works: staged })
    } else {
        compared(window)
    }
}

/// What the engine asks for when the new works are dealt with.
pub open spec fn compared(window: Seq<Seq<char>>) -> (Phase, ActionView) {
    if window.len() > 0 {
        (Phase::Windowing, ActionView::FindRecent { limit: limit_of(window.len()) })
    } else {
        (Phase::Done, ActionView::Finish)
    }
}

/// Paging is over.
pub open spec fn paged(
    cycle: DiffCycleView,
    action: ActionView,
    answers: Seq<Option<PageView>>,
    held: Seq<WorkView>,
) -> bool {
    let whole = survey(answers, held, 1);
    &&& cycle.page == whole.fetches
    &&& if whole.failed {
        cycle.phase == Phase::Done && action == ActionView::Finish
    } else {
        &&& cycle.recent_ids == window_of(answers)
        &&& (cycle.phase, action) == settled(whole.staged, window_of(answers))
    }
}

/// One more work looked at: what it adds to the works found new and to the
/// question whether all were new.
pub proof fn lemma_one_more_work(works: Seq<WorkView>, held: Seq<WorkView>, n: int)
    requires
        0 <= n < works.len(),
    ensures
        unseen(works.take(n + 1), held) == if holds(held, works[n].id) {
            unseen(works.take(n), held)
        } else {
            unseen(works.take(n), held).push(works[n])
        },
        all_new(works.take(n + 1), held) == (all_new(works.take(n), held) && !holds(
            held,
            works[n].id,
        )),
{
    assert(works.take(n + 1).drop_last() =~= works.take(n));
    assert(works.take(n + 1).last() == works[n]);
    if all_new(works.take(n), held) && !holds(held, works[n].id) {
        assert forall|i: int| 0 <= i < n + 1 implies !holds(
            held,
            (#[trigger] works.take(n + 1)[i]).id,
        ) by {
            if i < n {
                assert(works.take(n)[i] == works.take(n + 1)[i]);
            }
        }
    }
    if all_new(works.take(n + 1), held) {
        assert(works.take(n + 1)[n] == works[n]);
        assert forall|i: int| 0 <= i < n implies !holds(held, (#[trigger] works.take(n)[i]).id) by {
            assert(works.take(n)[i] == works.take(n + 1)[i]);
        }
    }
}

/// The event that the record of answers gives for a page request.
pub open spec fn fetched(answers: Seq<Option<PageView>>, page: int) -> EventView {
    match answer_of(answers, page) {
        Some(answer) => EventView::Page(answer),
        None => EventView::FetchFailed,
    }
}

/// The answer on record for the page, as the event that reports it.
pub fn fetch(answers: &Vec<Option<PixivBookmarks>>, page: i64) -> (event: Event)
    ensures
        event@ == fetched(answers.deep_view(), page as int),
{
    if page < 1 || (page - 1) as u64 >= answers.len() as u64 {
        return Event::FetchFailed;
    }
    let at = (page - 1) as usize;
    assert(answers.deep_view()[at as int] == answers[at as int].deep_view());
    match &answers[at] {
        Some(answer) => Event::Page(answer.clone()),
        None => Event::FetchFailed,
    }
}

/// A page request answered: paging stands before the first work of the
/// page, or is over.
pub proof fn lemma_page_step(
    cycle: DiffCycleView,
    action: ActionView,
    answers: Seq<Option<PageView>>,
    held: Seq<WorkView>,
)
    requires
        at_page(cycle, action, answers, held),
    ensures
        ({
            let next = cycle.after(fetched(answers, cycle.page as int));
            at_work(next.0, next.1, answers, held, cycle.staged) || paged(
                next.0,
                next.1,
                answers,
                held,
            )
        }),
{
    let next = cycle.after(fetched(answers, cycle.page as int));
    if answer_of(answers, cycle.page as int) is Some {
        let works = answer_of(answers, cycle.page as int)->0.works;
        assert(works.take(0) =~= Seq::<WorkView>::empty());
        assert(cycle.staged + Seq::<WorkView>::empty() =~= cycle.staged);
        if works.len() == 0 {
            assert(cycle.staged + unseen(works, held) =~= cycle.staged);
        }
    } else {
        assert(cycle.staged + Seq::<WorkView>::empty() =~= cycle.staged);
    }
}

/// A lookup answered: paging stands before the next work, before the next
/// page, or is over.
pub proof fn lemma_work_step(
    cycle: DiffCycleView,
    action: ActionView,
    answers: Seq<Option<PageView>>,
    held: Seq<WorkView>,
    staged: Seq<WorkView>,
)
    requires
        at_work(cycle, action, answers, held, staged),
    ensures
        ({
            let event = if holds(held, cycle.works[cycle.cursor as int].id) {
                EventView::Found
            } else {
                EventView::Missing
            };
            let next = cycle.after(event);
            ||| at_work(next.0, next.1, answers, held, staged)
            ||| at_page(next.0, next.1, answers, held)
            ||| paged(next.0, next.1, answers, held)
        }),
{
    let works = cycle.works;
    let n = cycle.cursor as int;
    lemma_one_more_work(works, held, n);
    if n + 1 == works.len() {
        assert(works.take(n + 1) =~= works);
        let rest = survey(answers, held, cycle.page as int);
        if all_new(works, held) && cycle.page < i64::MAX {
            let tail = survey(answers, held, cycle.page + 1);
            assert(staged + (unseen(works, held) + tail.staged) =~= (staged + unseen(works, held))
                + tail.staged);
        }
    }
}

/// How far paging is from its end.
pub open spec fn paging_left(cycle: DiffCycleView, answers: Seq<Option<PageView>>) -> (int, int) {
    if cycle.phase == Phase::Paging {
        (2 * (answers.len() + 1 - cycle.page) + 1, 0)
    } else if cycle.phase == Phase::Probing {
        (2 * (answers.len() + 1 - cycle.page), cycle.works.len() - cycle.cursor)
    } else {
        (0, 0)
    }
}

/// Runs the paging of a cycle that has not begun: every page request is
/// answered from the record, every lookup by the mirror.
fn run_paging(mirror: &Bookmarks, answers: &Vec<Option<PixivBookmarks>>) -> (end: (
    DiffCycle,
    Action,
    bool,
))
    ensures
        paged(end.0@, end.1@, answers.deep_view(), mirror@.works),
        end.2 == !survey(answers.deep_view(), mirror@.works, 1).failed,
{
    let ghost record = answers.deep_view();
    let ghost held = mirror@.works;
    let ghost mut before: Seq<WorkView> = Seq::empty();
    let first = DiffCycle::new().step(Event::Begin);
    let mut cycle = first.0;
    let mut action = first.1;
    let mut completed = true;
    assert(cycle@.staged + survey(record, held, 1).staged =~= survey(record, held, 1).staged);
    while cycle.phase == Phase::Paging || cycle.phase == Phase::Probing
        invariant
            record == answers.deep_view(),
            held == mirror@.works,
            at_page(cycle@, action@, record, held) || at_work(cycle@, action@, record, held, before)
                || paged(cycle@, action@, record, held),
            completed == !(paged(cycle@, action@, record, held) && survey(record, held, 1).failed),
        decreases paging_left(cycle@, record).0, paging_left(cycle@, record).1,
    {
        let event = match &action {
            Action::FetchPage { page } => {
                proof {
                    lemma_page_step(cycle@, action@, record, held);
                    before = cycle@.staged;
                }
                let event = fetch(answers, *page);
                if let Event::FetchFailed = event {
                    completed = false;
                }
                event
            },
            Action::Lookup { id } => {
                proof {
                    lemma_work_step(cycle@, action@, record, held, before);
                }
                if mirror.contains(id) {
                    Event::Found
                } else {
                    Event::Missing
                }
            },
            _ => Event::Begin,
        };
        let next = cycle.step(event);
        cycle = next.0;
        action = next.1;
    }
    (cycle, action, completed)
}

/// What one diff cycle did.
pub struct CycleReport {
    /// The number of pages asked for.
    pub fetches: i64,
    /// The ids of the works offered to the mirror, newest first.
    pub staged: Vec<String>,
    /// What the mirror said to them; `Ok` where none were offered.
    pub stored: Result<(), StoreError>,
    /// The ids removed from the mirror, in order.
    pub removed: Vec<String>,
    /// Whether the cycle ran to its end: no page request failed.
    pub completed: bool,
}

impl CycleReport {
    /// Whether the report is that of the outcome.
    pub open spec fn tells(self, outcome: CycleOutcome, mirror: MirrorView, now: i64) -> bool {
        &&& self.fetches == outcome.fetches
        &&& self.staged.deep_view() == ids_of(outcome.staged)
        &&& self.stored == verdict(mirror, outcome.staged, now)
        &&& self.removed.deep_view() == outcome.removed
        &&& self.completed == outcome.completed
    }
}

/// Runs one diff cycle at the time `now` on the mirror, with every page
/// request answered from the record: the answer to the request for page `n`
/// is the entry `n - 1`, and a request that the record has no answer for
/// fails.
pub fn run_cycle(mirror: &mut Bookmarks, answers: &Vec<Option<PixivBookmarks>>, now: i64) -> (report:
    CycleReport)
    ensures
        final(mirror)@ == cycle_outcome(old(mirror)@, answers.deep_view(), now).mirror,
        report.tells(
            cycle_outcome(old(mirror)@, answers.deep_view(), now),
            old(mirror)@,
            now,
        ),
{
    let ghost record = answers.deep_view();
    let ghost start = mirror@;
    let ghost outcome = cycle_outcome(start, record, now);
    let ghost window = window_of(record);
    let paging = run_paging(mirror, answers);
    let cycle = paging.0;
    let action = paging.1;
    let completed = paging.2;
    let fetches = cycle.page;
    let mut staged: Vec<String> = Vec::new();
    let mut stored: Result<(), StoreError> = Ok(());
    assert(staged.deep_view() =~= ids_of(Seq::<WorkView>::empty()));
    let next = match action {
        Action::Insert { works } => {
            staged = work_ids(&works);
            stored = mirror.insert_many_at(works, now);
            let event = match stored {
                Ok(()) => Event::Inserted,
                Err(StoreError::DuplicateId) => Event::Inserted,
                Err(_) => Event::InsertFailed,
            };
            cycle.step(event)
        },
        other => (cycle, other),
    };
    let cycle = next.0;
    let action = next.1;
    let ghost grown = mirror@;
    assert(completed ==> grown == taken_in(start, outcome.staged, now));
    assert(completed ==> (cycle@.phase, action@) == compared(window) && cycle@.recent_ids
        == window);
    let next = match action {
        Action::FindRecent { limit } => {
            let recent = mirror.find(&None, 0, limit, PaginationSort::Descending);
            cycle.step(Event::Recent(recent))
        },
        other => (cycle, other),
    };
    let mut cycle = next.0;
    let mut action = next.1;
    let removed = if cycle.phase == Phase::Deleting {
        clone_texts(&cycle.doomed)
    } else {
        Vec::new()
    };
    let ghost doomed = removed.deep_view();
    assert(doomed =~= outcome.removed);
    assert(doomed.take(0) =~= Seq::<Seq<char>>::empty());
    while cycle.phase == Phase::Deleting
        invariant
            cycle@.phase == Phase::Deleting ==> {
                &&& cycle@.cursor < doomed.len()
                &&& cycle@.doomed == doomed
                &&& action@ == ActionView::Delete { id: doomed[cycle@.cursor as int] }
                &&& mirror@ == expelled_all(grown, doomed.take(cycle@.cursor as int))
            },
            cycle@.phase != Phase::Deleting ==> mirror@ == expelled_all(grown, doomed),
        decreases
                if cycle@.phase == Phase::Deleting {
                    doomed.len() - cycle@.cursor
                } else {
                    0
                },
    {
        proof {
            let at = cycle@.cursor as int;
            assert(doomed.take(at + 1).drop_last() =~= doomed.take(at));
            if at + 1 == doomed.len() {
                assert(doomed.take(at + 1) =~= doomed);
            }
        }
        match &action {
            Action::Delete { id } => mirror.delete(id),
            _ => {},
        }
        let next = cycle.step(Event::Deleted);
        cycle = next.0;
        action = next.1;
    }
    assert(fetches == outcome.fetches);
    assert(staged.deep_view() == ids_of(outcome.staged));
    assert(removed.deep_view() == outcome.removed);
    assert(completed == outcome.completed);
    assert(stored == verdict(start, outcome.staged, now));
    CycleReport { fetches, staged, stored, removed, completed }
}

/// Whether the mirror took works in: all of them, or all but those that it
/// held already.
pub open spec fn took_in(said: Result<(), StoreError>) -> bool {
    said is Ok || said == Err::<(), StoreError>(StoreError::DuplicateId)
}

/// The mirror after works were offered to it, and whether it took them in.
/// No works are no offer. A mirror that did not take them in is as it was.
pub open spec fn offered(mirror: MirrorView, works: Seq<WorkView>, now: i64) -> (MirrorView, bool) {
    if works.len() == 0 {
        (mirror, true)
    } else {
        (taken_in(mirror, works, now), took_in(verdict(mirror, works, now)))
    }
}

/// The works on the pages from `from` to `to`, newest first.
pub open spec fn span(answers: Seq<Option<PageView>>, from: int, to: int) -> Seq<WorkView>
    decreases to - from + 1,
{
    if from > to {
        Seq::empty()
    } else {
        (match answer_of(answers, from) {
            Some(answer) => answer.works,
            None => Seq::empty(),
        }) + span(answers, from + 1, to)
    }
}

/// Whether every page from `from` to `to` was answered.
pub open spec fn all_answered(answers: Seq<Option<PageView>>, from: int, to: int) -> bool {
    forall|page: int| from <= page <= to ==> (#[trigger] answer_of(answers, page)) is Some
}

/// What a backfill at the time `now` comes to: the mirror after it, and
/// whether it succeeded. The newest page tells the number of pages. Where
/// the newest page or one of the older pages is not answered, the backfill
/// fails and the mirror is as it was. Else the works of all pages, the
/// newest page as it was answered at the start, are offered to the mirror
/// at once, which takes them in oldest first.
pub open spec fn backfilled(mirror: MirrorView, answers: Seq<Option<PageView>>, now: i64) -> (
    MirrorView,
    bool,
) {
    match answer_of(answers, 1) {
        None => (mirror, false),
        Some(first) => {
            let pages = page_count(first.total) as int;
            if all_answered(answers, 2, pages) {
                offered(mirror, first.works + span(answers, 2, pages), now)
            } else {
                (mirror, false)
            }
        },
    }
}

/// Why a backfill ended early.
#[derive(Debug, PartialEq, Eq, Structural, Clone, Copy)]
pub enum SyncError {
    /// A page request failed, or the mirror refused the works. The mirror
    /// is as it was.
    Interrupted,
}

/// Carries the action of a backfill out on the mirror and the record, and
/// reports the event.
fn perform(mirror: &mut Bookmarks, answers: &Vec<Option<PixivBookmarks>>, action: Action, now: i64) -> (event:
    Event)
    ensures
        match action@ {
            ActionView::FetchPage { page } => event@ == fetched(answers.deep_view(), page as int)
                && final(mirror)@ == old(mirror)@,
            ActionView::Insert { works } => final(mirror)@ == taken_in(old(mirror)@, works, now)
                && event@ == if took_in(verdict(old(mirror)@, works, now)) {
                EventView::Inserted
            } else {
                EventView::InsertFailed
            },
            _ => final(mirror)@ == old(mirror)@,
        },
{
    match action {
        Action::FetchPage { page } => fetch(answers, page),
        Action::Insert { works } => {
            match mirror.insert_many_at(works, now) {
                Ok(()) => Event::Inserted,
                Err(StoreError::DuplicateId) => Event::Inserted,
                Err(_) => Event::InsertFailed,
            }
        },
        _ => Event::Begin,
    }
}

/// Whether a backfill of `pages` pages in this state, about to carry the
/// action out on the mirror, comes to `whole`.
pub open spec fn on_course(
    backfill: BackfillView,
    action: ActionView,
    mirror: MirrorView,
    answers: Seq<Option<PageView>>,
    now: i64,
    pages: int,
    whole: (MirrorView, bool),
) -> bool {
    match backfill.phase {
        BackfillPhase::Page => {
            &&& 2 <= backfill.page <= pages
            &&& action == ActionView::FetchPage { page: backfill.page }
            &&& answer_of(answers, 1) is Some
            &&& backfill.first == answer_of(answers, 1)->0.works
            &&& backfill.older == span(answers, backfill.page + 1, pages)
            &&& all_answered(answers, backfill.page + 1, pages)
            &&& whole == if all_answered(answers, 2, pages) {
                offered(mirror, backfill.first + span(answers, 2, pages), now)
            } else {
                (mirror, false)
            }
        },
        BackfillPhase::Insert => {
            &&& action is Insert
            &&& action->Insert_works.len() > 0
            &&& whole == offered(mirror, action->Insert_works, now)
        },
        BackfillPhase::Done => whole == (mirror, true),
        BackfillPhase::Failed => whole == (mirror, false),
        _ => false,
    }
}

/// How far a backfill is from its end.
pub open spec fn backfill_left(backfill: BackfillView) -> int {
    match backfill.phase {
        BackfillPhase::Page => backfill.page + 2,
        BackfillPhase::Insert => 1,
        _ => 0,
    }
}

/// A page request of a backfill answered from the record: the backfill is
/// still on its course.
pub proof fn lemma_backfill_page_step(
    backfill: BackfillView,
    action: ActionView,
    mirror: MirrorView,
    answers: Seq<Option<PageView>>,
    now: i64,
    pages: int,
    whole: (MirrorView, bool),
)
    requires
        backfill.phase == BackfillPhase::Page,
        on_course(backfill, action, mirror, answers, now, pages, whole),
    ensures
        ({
            let next = backfill.after(fetched(answers, backfill.page as int));
            on_course(next.0, next.1, mirror, answers, now, pages, whole)
        }),
{
    let page = backfill.page as int;
    if answer_of(answers, page) is Some {
        assert forall|p: int| page <= p <= pages implies (#[trigger] answer_of(answers, p))
            is Some by {
            if p > page {
                assert(all_answered(answers, page + 1, pages));
            }
        }
    }
}

/// Fills the mirror from the upstream at the time `now`, with every page
/// request answered from the record. Every page is asked for, from the last
/// one down, before any work is handed to the mirror; then the works of all
/// pages are taken in, the oldest first. Where a page has no answer or the
/// mirror refuses the works, the backfill is interrupted and the mirror is
/// as it was.
pub fn insert_all_bookmarks(mongodb: &mut MongoDB, answers: &Vec<Option<PixivBookmarks>>, now: i64) -> (done:
    Result<(), SyncError>)
    ensures
        final(mongodb)@ == backfilled(old(mongodb)@, answers.deep_view(), now).0,
        done is Ok <==> backfilled(old(mongodb)@, answers.deep_view(), now).1,
        done is Err ==> final(mongodb)@ == old(mongodb)@,
{
    let ghost record = answers.deep_view();
    let ghost start = mongodb@;
    let ghost whole = backfilled(start, record, now);
    let ghost pages = match answer_of(record, 1) {
        Some(first) => page_count(first.total) as int,
        None => 0,
    };
    let begun = Backfill::new().step(Event::Begin);
    let first = fetch(answers, 1);
    let next = begun.0.step(first);
    let mut backfill = next.0;
    let mut action = next.1;
    proof {
        if answer_of(record, 1) is Some {
            let works = answer_of(record, 1)->0.works;
            if pages <= 1 {
                assert(works + Seq::<WorkView>::empty() =~= works);
            }
        }
    }
    while backfill.phase == BackfillPhase::Page || backfill.phase == BackfillPhase::Insert
        invariant
            record == answers.deep_view(),
            on_course(backfill@, action@, mongodb@, record, now, pages, whole),
            backfill@.phase != BackfillPhase::Done ==> mongodb@ == start,
            whole == backfilled(start, record, now),
            !whole.1 ==> whole.0 == start,
        decreases backfill_left(backfill@),
    {
        proof {
            if backfill@.phase == BackfillPhase::Page {
                lemma_backfill_page_step(backfill@, action@, mongodb@, record, now, pages, whole);
            }
        }
        let event = perform(&mut mongodb.bookmarks, answers, action, now);
        let next = backfill.step(event);
        backfill = next.0;
        action = next.1;
    }
    if backfill.succeeded() {
        Ok(())
    } else {
        Err(SyncError::Interrupted)
    }
}

/// What the start of the service comes to: a backfill where the mirror
/// holds no work, and nothing where it holds one.
pub open spec fn bootstrapped(mirror: MirrorView, answers: Seq<Option<PageView>>, now: i64) -> (
    MirrorView,
    bool,
) {
    if mirror.works.len() == 0 {
        backfilled(mirror, answers, now)
    } else {
        (mirror, true)
    }
}

/// Fills the mirror from the upstream where it holds no work, and leaves it
/// alone where it holds one. A backfill that is interrupted leaves the
/// mirror as it was, so that the next start tries again.
pub fn bootstrap(mongodb: &mut MongoDB, answers: &Vec<Option<PixivBookmarks>>, now: i64) -> (done:
    Result<(), SyncError>)
    ensures
        final(mongodb)@ == bootstrapped(old(mongodb)@, answers.deep_view(), now).0,
        done is Ok <==> bootstrapped(old(mongodb)@, answers.deep_view(), now).1,
        done is Err ==> final(mongodb)@ == old(mongodb)@,
{
    if mongodb.bookmarks.count(&None) == 0 {
        insert_all_bookmarks(mongodb, answers, now)
    } else {
        Ok(())
    }
}

/// One round of the service at the time `now`, with every page request
/// answered from the record: the backfill where the mirror holds no work,
/// then one diff cycle. Where the backfill is interrupted no cycle is run
/// and the mirror is as it was.
pub fn sync_bookmarks(mongodb: &mut MongoDB, answers: &Vec<Option<PixivBookmarks>>, now: i64) -> (done:
    Result<CycleReport, SyncError>)
    ensures
        ({
            let filled = bootstrapped(old(mongodb)@, answers.deep_view(), now);
            let outcome = cycle_outcome(filled.0, answers.deep_view(), now);
            &&& done is Ok <==> filled.1
            &&& done is Ok ==> final(mongodb)@ == outcome.mirror && done->Ok_0.tells(
                outcome,
                filled.0,
                now,
            )
            &&& done is Err ==> final(mongodb)@ == old(mongodb)@
        }),
{
    match bootstrap(mongodb, answers, now) {
        Ok(()) => Ok(run_cycle(&mut mongodb.bookmarks, answers, now)),
        Err(error) => Err(error),
    }
}

} // verus!
