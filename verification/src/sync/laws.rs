//! What holds of every run of the engine on a mirror in memory.

use crate::mongodb::bookmark_tags::{lemma_position, position, total_of};
use crate::mongodb::bookmarks::{
    absorbed, capped, dated_from, expelled, found, holds, lemma_absorbed_extends,
    lemma_absorbed_full, lemma_admitted_all, lemma_work_position, next_stamp, prepared, taken_in,
    verdict, work_position, MirrorView,
};
use crate::mongodb::counting::{
    counted, dated, empty_mirror, holders, ids_distinct, lemma_absorbed_holds,
    lemma_absorbed_nothing, lemma_expelled_sound, lemma_holders_remove,
    lemma_occurrences_distinct, lemma_taken_in_sound, lemma_untally, listed, occurrences, sound,
};
use crate::pixiv::{PageView, WorkView, PIXIV_BOOKMARKS_PER_PAGE};
use crate::routes::bookmarks::PaginationSort;
use crate::sync::backfill::page_count;
use crate::sync::bookmarks::{limit_of, strangers};
use crate::sync::replay::{
    all_new, answer_of, backfilled, bootstrapped, cycle_outcome, expelled_all, offered, span,
    survey, unseen, vanished, window_of,
};
use crate::text::distinct;
use vstd::prelude::*;

verus! {

/// Of works that the mirror holds all of, none is unseen.
pub proof fn lemma_unseen_none(works: Seq<WorkView>, held: Seq<WorkView>)
    requires
        forall|i: int| 0 <= i < works.len() ==> holds(held, (#[trigger] works[i]).id),
    ensures
        unseen(works, held).len() == 0,
    decreases works.len(),
{
    if works.len() > 0 {
        let rest = works.drop_last();
        assert forall|i: int| 0 <= i < rest.len() implies holds(held, (#[trigger] rest[i]).id) by {
            assert(rest[i] == works[i]);
        }
        lemma_unseen_none(rest, held);
        assert(holds(held, works[works.len() - 1].id));
    }
}

/// The newest-first short circuit: where the mirror holds every work of the
/// upstream's newest page, a diff cycle asks for that one page and no
/// other, offers nothing to the mirror, and leaves every mirrored work that
/// the page shows where it is.
pub proof fn law_short_circuit(mirror: MirrorView, answers: Seq<Option<PageView>>, now: i64)
    requires
        answer_of(answers, 1) is Some,
        forall|i: int|
            0 <= i < answer_of(answers, 1)->0.works.len() ==> holds(
                mirror.works,
                (#[trigger] answer_of(answers, 1)->0.works[i]).id,
            ),
    ensures
        cycle_outcome(mirror, answers, now).fetches == 1,
        cycle_outcome(mirror, answers, now).staged.len() == 0,
        cycle_outcome(mirror, answers, now).completed,
        cycle_outcome(mirror, answers, now).mirror == expelled_all(
            mirror,
            vanished(mirror, window_of(answers)),
        ),
{
    let works = answer_of(answers, 1)->0.works;
    lemma_unseen_none(works, mirror.works);
    if works.len() > 0 {
        assert(holds(mirror.works, works[0].id));
    }
    assert(survey(answers, mirror.works, 1).staged =~= Seq::<WorkView>::empty());
    assert(Seq::<WorkView>::empty().reverse() =~= Seq::<WorkView>::empty());
}

/// A page that lets paging go on: it was answered, holds works, and the
/// mirror holds none of them.
pub open spec fn page_is_new(answers: Seq<Option<PageView>>, held: Seq<WorkView>, page: int) -> bool {
    &&& answer_of(answers, page) is Some
    &&& answer_of(answers, page)->0.works.len() > 0
    &&& all_new(answer_of(answers, page)->0.works, held)
}

/// Paging from a page on asks for that page and for every page after it
/// as long as the pages are new, and for no page after the first that is
/// not; it fails exactly where that page has no answer.
pub proof fn lemma_paging_stops(answers: Seq<Option<PageView>>, held: Seq<WorkView>, page: int)
    requires
        1 <= page <= i64::MAX,
    ensures
        ({
            let paging = survey(answers, held, page);
            let last = page + paging.fetches - 1;
            &&& paging.fetches >= 1
            &&& forall|p: int| page <= p < last ==> page_is_new(answers, held, p)
            &&& paging.failed <==> answer_of(answers, last) is None
            &&& !page_is_new(answers, held, last) || last == i64::MAX
        }),
    decreases answers.len() - page + 1,
{
    if page_is_new(answers, held, page) && page < i64::MAX {
        lemma_paging_stops(answers, held, page + 1);
    }
}

/// Multi-page catch-up: a cycle asks for the pages from the newest on,
/// one after the other, and stops at the first page that is not new: that
/// is empty, that shows a mirrored work, or that has no answer. Every page
/// before it was new.
pub proof fn law_catch_up_pages(mirror: MirrorView, answers: Seq<Option<PageView>>, now: i64)
    ensures
        ({
            let outcome = cycle_outcome(mirror, answers, now);
            &&& outcome.fetches >= 1
            &&& forall|p: int| 1 <= p < outcome.fetches ==> page_is_new(answers, mirror.works, p)
            &&& outcome.completed <==> answer_of(answers, outcome.fetches as int) is Some
            &&& !page_is_new(answers, mirror.works, outcome.fetches as int) || outcome.fetches
                == i64::MAX
        }),
{
    lemma_paging_stops(answers, mirror.works, 1);
}

/// Multi-page catch-up: the works that a cycle found new, where the mirror
/// took all of them in, stand behind the works that it held, the oldest
/// first, each as the mirror keeps it and each dated later than the one
/// before it.
pub proof fn law_catch_up_order(mirror: MirrorView, answers: Seq<Option<PageView>>, now: i64)
    requires
        sound(mirror),
        cycle_outcome(mirror, answers, now).completed,
        verdict(mirror, cycle_outcome(mirror, answers, now).staged, now) is Ok,
    ensures
        ({
            let staged = cycle_outcome(mirror, answers, now).staged;
            let grown = taken_in(mirror, staged, now);
            &&& grown.works == mirror.works + prepared(staged, next_stamp(mirror.works, now))
            &&& dated(grown.works)
        }),
{
    let staged = cycle_outcome(mirror, answers, now).staged;
    let base = next_stamp(mirror.works, now);
    lemma_taken_in_sound(mirror, staged, now);
    lemma_absorbed_extends(mirror, staged.reverse(), base);
    lemma_absorbed_full(mirror, staged.reverse(), base);
    assert(dated_from(staged.reverse(), base) =~= prepared(staged, base));
}

/// Works offered to a sound mirror leave it sound.
pub proof fn lemma_offered_sound(mirror: MirrorView, works: Seq<WorkView>, now: i64)
    requires
        sound(mirror),
    ensures
        sound(offered(mirror, works, now).0),
{
    lemma_taken_in_sound(mirror, works, now);
}

/// A backfill leaves a sound mirror sound, wherever it ends.
pub proof fn lemma_backfilled_sound(mirror: MirrorView, answers: Seq<Option<PageView>>, now: i64)
    requires
        sound(mirror),
    ensures
        sound(backfilled(mirror, answers, now).0),
{
    if answer_of(answers, 1) is Some {
        let first = answer_of(answers, 1)->0;
        let pages = page_count(first.total) as int;
        lemma_offered_sound(mirror, first.works + span(answers, 2, pages), now);
    }
}

/// A backfill that fails leaves the mirror as it was: no page of it is taken
/// in unless all are answered, and a mirror that refuses the works keeps
/// none of them.
pub proof fn law_failed_backfill_changes_nothing(
    mirror: MirrorView,
    answers: Seq<Option<PageView>>,
    now: i64,
)
    ensures
        !backfilled(mirror, answers, now).1 ==> backfilled(mirror, answers, now).0 == mirror,
{
}

/// A second backfill changes nothing: after a backfill that succeeded, a
/// further one against the same answers, at whatever time, leaves the
/// mirror as the first one left it.
pub proof fn law_second_backfill_changes_nothing(
    mirror: MirrorView,
    answers: Seq<Option<PageView>>,
    now: i64,
    later: i64,
)
    requires
        backfilled(mirror, answers, now).1,
    ensures
        backfilled(backfilled(mirror, answers, now).0, answers, later).0 == backfilled(
            mirror,
            answers,
            now,
        ).0,
{
    let first = answer_of(answers, 1)->0;
    let pages = page_count(first.total) as int;
    let works = first.works + span(answers, 2, pages);
    let once = backfilled(mirror, answers, now).0;
    if works.len() > 0 {
        let batch = works.reverse();
        let base = next_stamp(mirror.works, now);
        assert(once == absorbed(mirror, batch, base));
        assert forall|i: int| 0 <= i < batch.len() implies holds(
            once.works,
            (#[trigger] batch[i]).id,
        ) by {
            lemma_absorbed_holds(mirror, batch, base, batch[i].id);
        }
        lemma_absorbed_nothing(once, batch, next_stamp(once.works, later));
    }
}

/// Letting works go leaves a sound mirror sound.
pub proof fn lemma_expelled_all_sound(mirror: MirrorView, ids: Seq<Seq<char>>)
    requires
        sound(mirror),
    ensures
        sound(expelled_all(mirror, ids)),
    decreases ids.len(),
{
    if ids.len() > 0 {
        lemma_expelled_all_sound(mirror, ids.drop_last());
        lemma_expelled_sound(expelled_all(mirror, ids.drop_last()), ids.last());
    }
}

/// A diff cycle leaves a sound mirror sound: no id twice, the works dated
/// in their order, and every tag's count equal to the number of mirrored
/// works that list it.
pub proof fn law_cycle_keeps_sound(mirror: MirrorView, answers: Seq<Option<PageView>>, now: i64)
    requires
        sound(mirror),
    ensures
        sound(cycle_outcome(mirror, answers, now).mirror),
{
    let paging = survey(answers, mirror.works, 1);
    if !paging.failed {
        lemma_taken_in_sound(mirror, paging.staged, now);
        let grown = taken_in(mirror, paging.staged, now);
        lemma_expelled_all_sound(grown, vanished(grown, window_of(answers)));
    }
}

/// A sound mirror without works is the empty mirror: no record is left.
pub proof fn lemma_sound_without_works_is_empty(mirror: MirrorView)
    requires
        sound(mirror),
        mirror.works.len() == 0,
    ensures
        mirror == empty_mirror(),
{
    if mirror.tags.len() > 0 {
        let id = mirror.tags[0].id;
        lemma_position(mirror.tags, id);
        assert(total_of(mirror.tags, id) == holders(mirror.works, id));
        assert(mirror.tags[position(mirror.tags, id)].total >= 1);
        assert(false);
    }
    assert(mirror.works =~= empty_mirror().works);
    assert(mirror.tags =~= empty_mirror().tags);
}

/// The bootstrap is idempotent. Run on an empty mirror it leaves a sound
/// mirror: every tag's count is the number of mirrored works that list it. Run again against the same answers it leaves as many
/// works as the first run did; and once a work is mirrored, a further run
/// changes nothing, at whatever time.
pub proof fn law_bootstrap_idempotent(answers: Seq<Option<PageView>>, now: i64, later: i64)
    ensures
        ({
            let once = bootstrapped(empty_mirror(), answers, now).0;
            let twice = bootstrapped(once, answers, now).0;
            &&& sound(once)
            &&& twice.works.len() == once.works.len()
            &&& twice == once
            &&& once.works.len() > 0 ==> bootstrapped(once, answers, later).0 == once
        }),
{
    let once = bootstrapped(empty_mirror(), answers, now).0;
    lemma_backfilled_sound(empty_mirror(), answers, now);
    if once.works.len() == 0 {
        lemma_sound_without_works_is_empty(once);
    }
}

/// The number of works that a cycle compares with a window of `len` ids.
pub open spec fn compared_count(works: Seq<WorkView>, len: nat) -> nat {
    if capped(limit_of(len)) >= works.len() {
        works.len()
    } else {
        capped(limit_of(len))
    }
}

/// The works that a mirror took in last are its last works, newest first.
pub proof fn lemma_recent(works: Seq<WorkView>, len: nat)
    ensures
        ({
            let recent = found(works, None, 0, limit_of(len), PaginationSort::Descending);
            &&& recent.len() == compared_count(works, len)
            &&& forall|j: int|
                0 <= j < recent.len() ==> #[trigger] recent[j] == works[works.len() - 1 - j]
        }),
{
    lemma_admitted_all(works);
}

/// An id is among the strangers exactly where a work has it and the window
/// does not.
pub proof fn lemma_strangers(window: Seq<Seq<char>>, works: Seq<WorkView>, id: Seq<char>)
    ensures
        strangers(window, works).contains(id) <==> (!window.contains(id) && exists|j: int|
            0 <= j < works.len() && (#[trigger] works[j]).id == id),
    decreases works.len(),
{
    if works.len() > 0 {
        let rest = works.drop_last();
        lemma_strangers(window, rest, id);
        let before = strangers(window, rest);
        if strangers(window, works).contains(id) {
            if before.contains(id) {
                let j = choose|j: int| 0 <= j < rest.len() && (#[trigger] rest[j]).id == id;
                assert(works[j].id == id);
            } else {
                let k = choose|k: int|
                    0 <= k < strangers(window, works).len() && strangers(window, works)[k] == id;
                assert(works[works.len() - 1].id == id);
            }
        }
        if !window.contains(id) && exists|j: int|
            0 <= j < works.len() && (#[trigger] works[j]).id == id {
            let j = choose|j: int| 0 <= j < works.len() && (#[trigger] works[j]).id == id;
            if j < rest.len() {
                assert(rest[j].id == id);
                assert(before.contains(id));
                let k = choose|k: int| 0 <= k < before.len() && before[k] == id;
                if !window.contains(works.last().id) {
                    assert(before.push(works.last().id)[k] == id);
                }
            } else {
                assert(before.push(id)[before.len() as int] == id);
            }
        }
    }
}

/// Letting the work of an id go, from works of which no two have one id,
/// leaves exactly the works of other ids.
pub proof fn lemma_expelled_works(mirror: MirrorView, id: Seq<char>, work: WorkView)
    requires
        ids_distinct(mirror.works),
    ensures
        expelled(mirror, id).works.contains(work) <==> (mirror.works.contains(work) && work.id
            != id),
{
    lemma_work_position(mirror.works, id);
    let after = expelled(mirror, id).works;
    let at = work_position(mirror.works, id);
    if after.contains(work) {
        let k = choose|k: int| 0 <= k < after.len() && after[k] == work;
        if holds(mirror.works, id) {
            if k < at {
                assert(mirror.works[k] == work);
            } else {
                assert(mirror.works[k + 1] == work);
            }
        }
    }
    if mirror.works.contains(work) && work.id != id {
        let k = choose|k: int| 0 <= k < mirror.works.len() && mirror.works[k] == work;
        if holds(mirror.works, id) {
            if k < at {
                assert(after[k] == work);
            } else {
                assert(after[k - 1] == work);
            }
        }
    }
}

/// Letting the works of a list of ids go, from works of which no two have
/// one id, leaves exactly the works whose id is not in the list.
pub proof fn lemma_expelled_all_works(mirror: MirrorView, ids: Seq<Seq<char>>, work: WorkView)
    requires
        sound(mirror),
    ensures
        expelled_all(mirror, ids).works.contains(work) <==> (mirror.works.contains(work)
            && !ids.contains(work.id)),
    decreases ids.len(),
{
    if ids.len() > 0 {
        let rest = ids.drop_last();
        lemma_expelled_all_works(mirror, rest, work);
        lemma_expelled_all_sound(mirror, rest);
        lemma_expelled_works(expelled_all(mirror, rest), ids.last(), work);
        if ids.contains(work.id) && work.id != ids.last() {
            let k = choose|k: int| 0 <= k < ids.len() && ids[k] == work.id;
            assert(rest[k] == work.id);
        }
        if rest.contains(work.id) {
            let k = choose|k: int| 0 <= k < rest.len() && rest[k] == work.id;
            assert(ids[k] == work.id);
        }
        if work.id == ids.last() {
            assert(ids[ids.len() - 1] == work.id);
        }
    }
}

/// Bounded deletion detection. A cycle that runs to its end removes from
/// the mirror, grown by what the cycle took in, exactly the works that stand
/// among its newest ones, as many as the window has ids and at most a page,
/// and whose id the upstream's recent window does not show. Such a work is
/// gone after the cycle; every other work is still there, however long it
/// has been gone upstream.
pub proof fn law_bounded_deletion(
    mirror: MirrorView,
    answers: Seq<Option<PageView>>,
    now: i64,
    at: int,
)
    requires
        sound(mirror),
        cycle_outcome(mirror, answers, now).completed,
        0 <= at < taken_in(mirror, cycle_outcome(mirror, answers, now).staged, now).works.len(),
    ensures
        ({
            let outcome = cycle_outcome(mirror, answers, now);
            let grown = taken_in(mirror, outcome.staged, now);
            let window = window_of(answers);
            let work = grown.works[at];
            let compared = at >= grown.works.len() - compared_count(grown.works, window.len());
            if window.len() > 0 && compared && !window.contains(work.id) {
                outcome.removed.contains(work.id) && !holds(outcome.mirror.works, work.id)
            } else {
                !outcome.removed.contains(work.id) && outcome.mirror.works.contains(work)
            }
        }),
{
    let outcome = cycle_outcome(mirror, answers, now);
    let grown = taken_in(mirror, outcome.staged, now);
    let window = window_of(answers);
    let work = grown.works[at];
    let recent = found(grown.works, None, 0, limit_of(window.len()), PaginationSort::Descending);
    let count = compared_count(grown.works, window.len());
    let compared = at >= grown.works.len() - count;
    lemma_taken_in_sound(mirror, outcome.staged, now);
    lemma_recent(grown.works, window.len());
    lemma_strangers(window, recent, work.id);
    lemma_expelled_all_works(grown, outcome.removed, work);
    assert(grown.works.contains(work));
    if window.len() > 0 && compared && !window.contains(work.id) {
        assert(recent[grown.works.len() - 1 - at] == work);
        lemma_work_position(outcome.mirror.works, work.id);
        if holds(outcome.mirror.works, work.id) {
            let left = outcome.mirror.works[work_position(outcome.mirror.works, work.id)];
            assert(outcome.mirror.works.contains(left));
            lemma_expelled_all_works(grown, outcome.removed, left);
        }
    } else if outcome.removed.contains(work.id) {
        let j = choose|j: int| 0 <= j < recent.len() && (#[trigger] recent[j]).id == work.id;
        assert(recent[j] == grown.works[grown.works.len() - 1 - j]);
    }
}

/// Deletion within the recent window. Where the upstream's newest page
/// holds works, no more than a page's size, and the mirror holds them all,
/// a diff cycle compares the page with as many of the works that the mirror
/// took in last. Of these, a work whose id the page does not show is gone
/// after the cycle, and a work whose id the page shows is still there as it
/// was.
pub proof fn law_window_deletion(
    mirror: MirrorView,
    answers: Seq<Option<PageView>>,
    now: i64,
    at: int,
)
    requires
        sound(mirror),
        answer_of(answers, 1) is Some,
        0 < answer_of(answers, 1)->0.works.len() <= PIXIV_BOOKMARKS_PER_PAGE,
        forall|i: int|
            0 <= i < answer_of(answers, 1)->0.works.len() ==> holds(
                mirror.works,
                (#[trigger] answer_of(answers, 1)->0.works[i]).id,
            ),
        0 <= at < mirror.works.len(),
        mirror.works.len() - answer_of(answers, 1)->0.works.len() <= at,
    ensures
        ({
            let after = cycle_outcome(mirror, answers, now).mirror;
            let work = mirror.works[at];
            if window_of(answers).contains(work.id) {
                after.works.contains(work)
            } else {
                !holds(after.works, work.id)
            }
        }),
{
    let page = answer_of(answers, 1)->0.works;
    law_short_circuit(mirror, answers, now);
    let outcome = cycle_outcome(mirror, answers, now);
    assert(outcome.staged =~= Seq::<WorkView>::empty());
    assert(outcome.staged.reverse() =~= Seq::<WorkView>::empty());
    assert(taken_in(mirror, outcome.staged, now) == mirror);
    assert(window_of(answers).len() == page.len());
    law_bounded_deletion(mirror, answers, now, at);
}

/// Letting a work go lowers the count of each tag that it lists by one,
/// however often it lists the tag, and leaves every other count as it is.
pub proof fn law_removal_lowers_counts(mirror: MirrorView, id: Seq<char>, tag: Seq<char>)
    requires
        counted(mirror),
        holds(mirror.works, id),
    ensures
        total_of(expelled(mirror, id).tags, tag) == total_of(mirror.tags, tag) - listed(
            mirror.works[work_position(mirror.works, id)].tags,
            tag,
        ),
{
    lemma_work_position(mirror.works, id);
    let at = work_position(mirror.works, id);
    let gone = distinct(mirror.works[at].tags);
    assert forall|other: Seq<char>| occurrences(gone, other) <= #[trigger] total_of(
        mirror.tags,
        other,
    ) by {
        lemma_holders_remove(mirror.works, at, other);
        lemma_occurrences_distinct(mirror.works[at].tags, other);
        assert(total_of(mirror.tags, other) == holders(mirror.works, other));
    }
    lemma_untally(mirror.tags, gone);
    lemma_occurrences_distinct(mirror.works[at].tags, tag);
}

} // verus!
