//! The counter invariant: every tag's count is the number of mirrored works
//! that list the tag, and taking works in or letting them go keeps it so.

use crate::mongodb::bookmark_tags::{
    bumped, known, lemma_position, lemma_position_is, position, released, total_of,
};
use crate::mongodb::bookmarks::{
    absorbable, absorbed, datable, dated_from, expelled, holds, lemma_absorbed_extends,
    lemma_absorbed_full, lemma_work_position, next_stamp, prepared, stored, taken_in, tally,
    tally_fits, untally, verdict, work_position, MirrorView,
};
use crate::mongodb::TagView;
use crate::pixiv::WorkView;
use crate::text::{distinct, lemma_distinct};
use vstd::prelude::*;

verus! {

/// How often the id stands among the ids.
pub open spec fn occurrences(ids: Seq<Seq<char>>, id: Seq<char>) -> nat
    decreases ids.len(),
{
    if ids.len() == 0 {
        0
    } else {
        occurrences(ids.drop_last(), id) + if ids.last() == id {
            1nat
        } else {
            0nat
        }
    }
}

/// How many of the works list the tag.
pub open spec fn holders(works: Seq<WorkView>, id: Seq<char>) -> nat
    decreases works.len(),
{
    if works.len() == 0 {
        0
    } else {
        holders(works.drop_last(), id) + if works.last().tags.contains(id) {
            1nat
        } else {
            0nat
        }
    }
}

/// The records are sound: no two are of one tag, and none holds a zero.
pub open spec fn records_sound(tags: Seq<TagView>) -> bool {
    &&& forall|i: int, j: int| 0 <= i < j < tags.len() ==> tags[i].id != tags[j].id
    &&& forall|i: int| 0 <= i < tags.len() ==> tags[i].total >= 1
}

/// The counter invariant of a mirror: sound records, and for every tag a
/// count equal to the number of mirrored works that list it.
pub open spec fn counted(mirror: MirrorView) -> bool {
    &&& records_sound(mirror.tags)
    &&& forall|id: Seq<char>| #[trigger] total_of(mirror.tags, id) == holders(mirror.works, id)
}

/// Whether the tag is among the tags, as a number.
pub open spec fn listed(tags: Seq<Seq<char>>, id: Seq<char>) -> nat {
    if tags.contains(id) {
        1
    } else {
        0
    }
}

/// Among the tags of a work without their repeats, a tag stands once where
/// the work lists it and not at all where it does not.
pub proof fn lemma_occurrences_distinct(tags: Seq<Seq<char>>, id: Seq<char>)
    ensures
        occurrences(distinct(tags), id) == listed(tags, id),
{
    lemma_distinct(tags);
    lemma_occurrences_once(distinct(tags), id);
}

/// An empty mirror.
pub open spec fn empty_mirror() -> MirrorView {
    MirrorView { works: Seq::empty(), tags: Seq::empty() }
}

/// One more reference raises the count of its tag by one and leaves every
/// other count, and the soundness of the records, as it was.
pub proof fn lemma_bumped(tags: Seq<TagView>, id: Seq<char>)
    requires
        records_sound(tags),
        total_of(tags, id) < u64::MAX,
    ensures
        records_sound(bumped(tags, id)),
        forall|other: Seq<char>| #[trigger]
            total_of(bumped(tags, id), other) == total_of(tags, other) + if other == id {
                1nat
            } else {
                0nat
            },
{
    let after = bumped(tags, id);
    lemma_position(tags, id);
    assert forall|other: Seq<char>| #[trigger]
        total_of(after, other) == total_of(tags, other) + if other == id {
            1nat
        } else {
            0nat
        } by {
        lemma_position(tags, other);
        let at = position(tags, other);
        if known(tags, id) {
            lemma_position_is(after, other, at);
        } else if other == id {
            lemma_position_is(after, other, tags.len() as int);
        } else if known(tags, other) {
            lemma_position_is(after, other, at);
        } else {
            lemma_position_is(after, other, after.len() as int);
        }
    }
}

/// One reference less lowers the count of its tag by one, where it was
/// above zero, and leaves every other count, and the soundness of the
/// records, as it was.
pub proof fn lemma_released(tags: Seq<TagView>, id: Seq<char>)
    requires
        records_sound(tags),
    ensures
        records_sound(released(tags, id)),
        forall|other: Seq<char>| #[trigger]
            total_of(released(tags, id), other) == total_of(tags, other) - if other == id
                && total_of(tags, id) >= 1 {
                1int
            } else {
                0int
            },
{
    let after = released(tags, id);
    lemma_position(tags, id);
    let gone = position(tags, id);
    assert forall|other: Seq<char>| #[trigger]
        total_of(after, other) == total_of(tags, other) - if other == id && total_of(tags, id)
            >= 1 {
            1int
        } else {
            0int
        } by {
        lemma_position(tags, other);
        let at = position(tags, other);
        if !known(tags, id) {
        } else if tags[gone].total > 1 {
            lemma_position_is(after, other, at);
        } else if other == id {
            lemma_position_is(after, other, after.len() as int);
        } else if at < gone {
            lemma_position_is(after, other, at);
        } else if known(tags, other) {
            lemma_position_is(after, other, at - 1);
        } else {
            lemma_position_is(after, other, after.len() as int);
        }
    }
}

/// Counting the references of a list of tags raises each count by the number
/// of times that the tag is listed.
pub proof fn lemma_tally(tags: Seq<TagView>, ids: Seq<Seq<char>>)
    requires
        records_sound(tags),
        tally_fits(tags, ids),
    ensures
        records_sound(tally(tags, ids)),
        forall|other: Seq<char>| #[trigger]
            total_of(tally(tags, ids), other) == total_of(tags, other) + occurrences(ids, other),
    decreases ids.len(),
{
    if ids.len() > 0 {
        lemma_tally(tags, ids.drop_last());
        lemma_bumped(tally(tags, ids.drop_last()), ids.last());
    }
}

/// Letting the references of a list of tags go lowers each count by the
/// number of times that the tag is listed, where the counts cover them.
pub proof fn lemma_untally(tags: Seq<TagView>, ids: Seq<Seq<char>>)
    requires
        records_sound(tags),
        forall|other: Seq<char>| occurrences(ids, other) <= #[trigger] total_of(tags, other),
    ensures
        records_sound(untally(tags, ids)),
        forall|other: Seq<char>| #[trigger]
            total_of(untally(tags, ids), other) == total_of(tags, other) - occurrences(ids, other),
    decreases ids.len(),
{
    if ids.len() > 0 {
        let rest = ids.drop_last();
        assert forall|other: Seq<char>| occurrences(rest, other) <= #[trigger] total_of(
            tags,
            other,
        ) by {
            assert(occurrences(ids, other) <= total_of(tags, other));
        }
        lemma_untally(tags, rest);
        lemma_released(untally(tags, rest), ids.last());
        assert(occurrences(ids, ids.last()) <= total_of(tags, ids.last()));
        assert forall|other: Seq<char>| #[trigger]
            total_of(untally(tags, ids), other) == total_of(tags, other) - occurrences(
                ids,
                other,
            ) by {
            assert(total_of(untally(tags, rest), other) == total_of(tags, other) - occurrences(
                rest,
                other,
            ));
            assert(total_of(untally(tags, rest), ids.last()) == total_of(tags, ids.last())
                - occurrences(rest, ids.last()));
        }
    }
}

/// The works without one of them have one holder less of each tag that it
/// lists, and as many of every other tag.
pub proof fn lemma_holders_remove(works: Seq<WorkView>, at: int, id: Seq<char>)
    requires
        0 <= at < works.len(),
    ensures
        holders(works, id) == holders(works.remove(at), id) + listed(works[at].tags, id),
    decreases works.len(),
{
    if at == works.len() - 1 {
        assert(works.remove(at) =~= works.drop_last());
    } else {
        lemma_holders_remove(works.drop_last(), at, id);
        assert(works.remove(at).drop_last() =~= works.drop_last().remove(at));
        assert(works.remove(at).last() == works.last());
    }
}

/// Taking a batch in keeps the counter invariant.
pub proof fn lemma_absorbed_counted(mirror: MirrorView, batch: Seq<WorkView>, base: int)
    requires
        counted(mirror),
        absorbable(mirror, batch, base),
    ensures
        counted(absorbed(mirror, batch, base)),
    decreases batch.len(),
{
    if batch.len() > 0 {
        lemma_absorbed_counted(mirror, batch.drop_last(), base);
        let before = absorbed(mirror, batch.drop_last(), base);
        let after = absorbed(mirror, batch, base);
        let work = stored(batch.last(), base + batch.len() - 1);
        if !holds(before.works, work.id) {
            lemma_tally(before.tags, distinct(work.tags));
            assert(after.works.drop_last() =~= before.works);
            assert forall|id: Seq<char>| #[trigger]
                total_of(after.tags, id) == holders(after.works, id) by {
                assert(total_of(before.tags, id) == holders(before.works, id));
                lemma_occurrences_distinct(work.tags, id);
            }
        }
    }
}

/// The holders of a tag among works put one behind the other are those
/// among the first and those among the second.
pub proof fn lemma_holders_add(first: Seq<WorkView>, then: Seq<WorkView>, id: Seq<char>)
    ensures
        holders(first + then, id) == holders(first, id) + holders(then, id),
    decreases then.len(),
{
    if then.len() == 0 {
        assert(first + then =~= first);
    } else {
        lemma_holders_add(first, then.drop_last(), id);
        assert((first + then).drop_last() =~= first + then.drop_last());
        assert((first + then).last() == then.last());
    }
}

/// A page that the mirror takes in whole raises the count of every tag by
/// the number of works of the page that list the tag in some case, and so
/// by one for each such work, however often the work lists it.
pub proof fn law_insert_raises_counts(mirror: MirrorView, page: Seq<WorkView>, now: i64, tag: Seq<char>)
    requires
        counted(mirror),
        verdict(mirror, page, now) is Ok,
    ensures
        total_of(taken_in(mirror, page, now).tags, tag) == total_of(mirror.tags, tag) + holders(
            prepared(page, next_stamp(mirror.works, now)),
            tag,
        ),
{
    let base = next_stamp(mirror.works, now);
    let batch = page.reverse();
    let after = absorbed(mirror, batch, base);
    lemma_absorbed_counted(mirror, batch, base);
    lemma_absorbed_extends(mirror, batch, base);
    lemma_absorbed_full(mirror, batch, base);
    assert(dated_from(batch, base) =~= prepared(page, base));
    lemma_holders_add(mirror.works, prepared(page, base), tag);
    assert(total_of(mirror.tags, tag) == holders(mirror.works, tag));
    assert(total_of(after.tags, tag) == holders(after.works, tag));
}

/// Letting a work go keeps the counter invariant.
pub proof fn lemma_expelled_counted(mirror: MirrorView, id: Seq<char>)
    requires
        counted(mirror),
    ensures
        counted(expelled(mirror, id)),
{
    if holds(mirror.works, id) {
        lemma_work_position(mirror.works, id);
        let at = work_position(mirror.works, id);
        let gone = distinct(mirror.works[at].tags);
        assert forall|other: Seq<char>| occurrences(gone, other) <= #[trigger] total_of(
            mirror.tags,
            other,
        ) by {
            lemma_holders_remove(mirror.works, at, other);
            lemma_occurrences_distinct(mirror.works[at].tags, other);
            assert(total_of(mirror.tags, other) == holders(mirror.works, other));
        }
        lemma_untally(mirror.tags, gone);
        let after = expelled(mirror, id);
        assert forall|other: Seq<char>| #[trigger]
            total_of(after.tags, other) == holders(after.works, other) by {
            lemma_holders_remove(mirror.works, at, other);
            lemma_occurrences_distinct(mirror.works[at].tags, other);
            assert(total_of(mirror.tags, other) == holders(mirror.works, other));
        }
    }
}

/// A work is held exactly where one of the works has its id.
pub proof fn lemma_holds(works: Seq<WorkView>, id: Seq<char>)
    ensures
        holds(works, id) <==> exists|j: int| 0 <= j < works.len() && (#[trigger] works[j]).id == id,
{
    lemma_work_position(works, id);
    if holds(works, id) {
        assert(works[work_position(works, id)].id == id);
    }
}

/// After a batch was taken in the mirror holds every id that it held, and
/// the id of every work of the batch.
pub proof fn lemma_absorbed_holds(mirror: MirrorView, batch: Seq<WorkView>, base: int, id: Seq<char>)
    requires
        holds(mirror.works, id) || exists|i: int|
            0 <= i < batch.len() && (#[trigger] batch[i]).id == id,
    ensures
        holds(absorbed(mirror, batch, base).works, id),
    decreases batch.len(),
{
    let after = absorbed(mirror, batch, base);
    lemma_holds(after.works, id);
    if batch.len() > 0 {
        let rest = batch.drop_last();
        let before = absorbed(mirror, rest, base);
        lemma_holds(before.works, id);
        if holds(mirror.works, id) || exists|i: int|
            0 <= i < rest.len() && (#[trigger] rest[i]).id == id {
            lemma_absorbed_holds(mirror, rest, base, id);
            let j = choose|j: int| 0 <= j < before.works.len() && (#[trigger] before.works[j]).id == id;
            assert(after.works[j].id == id);
        } else {
            let i = choose|i: int| 0 <= i < batch.len() && (#[trigger] batch[i]).id == id;
            if i < rest.len() {
                assert(rest[i].id == id);
            }
            assert(batch.last().id == id);
            if !holds(before.works, id) {
                assert(after.works[after.works.len() - 1].id == id);
            }
        }
    }
}

/// A batch of works that the mirror holds all of changes nothing.
pub proof fn lemma_absorbed_nothing(mirror: MirrorView, batch: Seq<WorkView>, base: int)
    requires
        forall|i: int| 0 <= i < batch.len() ==> holds(mirror.works, (#[trigger] batch[i]).id),
    ensures
        absorbed(mirror, batch, base) == mirror,
    decreases batch.len(),
{
    if batch.len() > 0 {
        let rest = batch.drop_last();
        assert forall|i: int| 0 <= i < rest.len() implies holds(
            mirror.works,
            (#[trigger] rest[i]).id,
        ) by {
            assert(rest[i] == batch[i]);
        }
        lemma_absorbed_nothing(mirror, rest, base);
        assert(holds(mirror.works, batch[batch.len() - 1].id));
    }
}

/// No two works have one id.
pub open spec fn ids_distinct(works: Seq<WorkView>) -> bool {
    forall|i: int, j: int| 0 <= i < j < works.len() ==> works[i].id != works[j].id
}

/// Every work is dated, and each later than the one before it.
pub open spec fn dated(works: Seq<WorkView>) -> bool {
    &&& forall|i: int| 0 <= i < works.len() ==> works[i].sync_date is Some
    &&& forall|i: int, j: int|
        0 <= i < j < works.len() ==> works[i].sync_date->0 < works[j].sync_date->0
}

/// A mirror in order: no id twice, the works dated in the order in which
/// they stand, and the counter invariant.
pub open spec fn sound(mirror: MirrorView) -> bool {
    &&& ids_distinct(mirror.works)
    &&& dated(mirror.works)
    &&& counted(mirror)
}

/// Taking a batch in never puts one id in twice.
pub proof fn lemma_absorbed_distinct(mirror: MirrorView, batch: Seq<WorkView>, base: int)
    requires
        ids_distinct(mirror.works),
    ensures
        ids_distinct(absorbed(mirror, batch, base).works),
    decreases batch.len(),
{
    if batch.len() > 0 {
        lemma_absorbed_distinct(mirror, batch.drop_last(), base);
        let before = absorbed(mirror, batch.drop_last(), base);
        lemma_work_position(before.works, batch.last().id);
    }
}

/// A batch of works that are all new to the mirror, no two of one id, is
/// taken in whole: the mirror holds what it held, and behind it the works of
/// the batch, in order, as the mirror keeps them.
pub proof fn lemma_absorbed_fresh(mirror: MirrorView, batch: Seq<WorkView>, base: int)
    requires
        forall|i: int| 0 <= i < batch.len() ==> !holds(mirror.works, (#[trigger] batch[i]).id),
        forall|i: int, j: int| 0 <= i < j < batch.len() ==> batch[i].id != batch[j].id,
    ensures
        absorbed(mirror, batch, base).works == mirror.works + dated_from(batch, base),
    decreases batch.len(),
{
    if batch.len() == 0 {
        assert(mirror.works + dated_from(batch, base) =~= mirror.works);
    } else {
        let rest = batch.drop_last();
        assert forall|i: int| 0 <= i < rest.len() implies !holds(
            mirror.works,
            (#[trigger] rest[i]).id,
        ) by {
            assert(rest[i] == batch[i]);
        }
        lemma_absorbed_fresh(mirror, rest, base);
        let before = absorbed(mirror, rest, base);
        let last = batch.last();
        lemma_work_position(before.works, last.id);
        lemma_work_position(mirror.works, last.id);
        if holds(before.works, last.id) {
            let at = work_position(before.works, last.id);
            assert(!holds(mirror.works, batch[batch.len() - 1].id));
            if at >= mirror.works.len() {
                let k = at - mirror.works.len();
                assert(before.works[at] == stored(rest[k], base + k));
                assert(batch[k].id != batch[batch.len() - 1].id);
            }
        }
        assert(absorbed(mirror, batch, base).works =~= mirror.works + dated_from(batch, base));
    }
}

/// A page of works that are all new to the mirror, no two of one id, is
/// taken in whole: behind the works that the mirror held stand the works of
/// the page, oldest first, as they were prepared.
pub proof fn law_new_page_is_taken_in_whole(mirror: MirrorView, page: Seq<WorkView>, base: int)
    requires
        forall|i: int| 0 <= i < page.len() ==> !holds(mirror.works, (#[trigger] page[i]).id),
        forall|i: int, j: int| 0 <= i < j < page.len() ==> page[i].id != page[j].id,
    ensures
        absorbed(mirror, page.reverse(), base).works == mirror.works + prepared(page, base),
{
    let batch = page.reverse();
    assert forall|i: int| 0 <= i < batch.len() implies !holds(
        mirror.works,
        (#[trigger] batch[i]).id,
    ) by {
        assert(batch[i] == page[page.len() - 1 - i]);
    }
    lemma_absorbed_fresh(mirror, batch, base);
    assert(dated_from(batch, base) =~= prepared(page, base));
}

/// A batch dated from `base` on, later than every mirrored work, leaves the
/// works dated in the order in which they stand, all before `base` plus the
/// size of the batch.
pub proof fn lemma_absorbed_dated(mirror: MirrorView, batch: Seq<WorkView>, base: int)
    requires
        dated(mirror.works),
        forall|i: int| 0 <= i < mirror.works.len() ==> mirror.works[i].sync_date->0 < base,
        i64::MIN <= base,
        datable(batch.len(), base),
    ensures
        dated(absorbed(mirror, batch, base).works),
        forall|i: int|
            0 <= i < absorbed(mirror, batch, base).works.len() ==> (#[trigger] absorbed(
                mirror,
                batch,
                base,
            ).works[i]).sync_date->0 < base + batch.len(),
    decreases batch.len(),
{
    if batch.len() > 0 {
        lemma_absorbed_dated(mirror, batch.drop_last(), base);
    }
}

/// The first date of a batch is later than every date of a dated mirror.
pub proof fn lemma_next_stamp_is_later(works: Seq<WorkView>, now: i64)
    requires
        dated(works),
    ensures
        forall|i: int| 0 <= i < works.len() ==> works[i].sync_date->0 < next_stamp(works, now),
{
    assert forall|i: int| 0 <= i < works.len() implies works[i].sync_date->0 < next_stamp(
        works,
        now,
    ) by {
        if i < works.len() - 1 {
            assert(works[i].sync_date->0 < works[works.len() - 1].sync_date->0);
        }
    }
}

/// Letting a work go leaves the others in order.
pub proof fn lemma_expelled_ordered(mirror: MirrorView, id: Seq<char>)
    requires
        ids_distinct(mirror.works),
        dated(mirror.works),
    ensures
        ids_distinct(expelled(mirror, id).works),
        dated(expelled(mirror, id).works),
        !holds(expelled(mirror, id).works, id),
{
    lemma_work_position(mirror.works, id);
    let after = expelled(mirror, id).works;
    lemma_work_position(after, id);
}

/// A page offered to a sound mirror leaves it sound.
pub proof fn lemma_taken_in_sound(mirror: MirrorView, page: Seq<WorkView>, now: i64)
    requires
        sound(mirror),
    ensures
        sound(taken_in(mirror, page, now)),
{
    let base = next_stamp(mirror.works, now);
    if datable(page.len(), base) && absorbable(mirror, page.reverse(), base) {
        lemma_absorbed_distinct(mirror, page.reverse(), base);
        lemma_next_stamp_is_later(mirror.works, now);
        lemma_absorbed_dated(mirror, page.reverse(), base);
        lemma_absorbed_counted(mirror, page.reverse(), base);
    }
}

/// Letting a work go leaves a sound mirror sound.
pub proof fn lemma_expelled_sound(mirror: MirrorView, id: Seq<char>)
    requires
        sound(mirror),
    ensures
        sound(expelled(mirror, id)),
{
    lemma_expelled_ordered(mirror, id);
    lemma_expelled_counted(mirror, id);
}

/// Among ids that are all different, one stands once or not at all.
pub proof fn lemma_occurrences_once(ids: Seq<Seq<char>>, id: Seq<char>)
    requires
        forall|i: int, j: int| 0 <= i < j < ids.len() ==> ids[i] != ids[j],
    ensures
        occurrences(ids, id) == if ids.contains(id) {
            1nat
        } else {
            0nat
        },
    decreases ids.len(),
{
    if ids.len() > 0 {
        let rest = ids.drop_last();
        lemma_occurrences_once(rest, id);
        if ids.last() == id {
            assert(ids[ids.len() - 1] == id);
            if rest.contains(id) {
                let i = choose|i: int| 0 <= i < rest.len() && rest[i] == id;
                assert(ids[i] == id);
            }
        } else if ids.contains(id) {
            let i = choose|i: int| 0 <= i < ids.len() && ids[i] == id;
            assert(rest[i] == id);
        } else if rest.contains(id) {
            let i = choose|i: int| 0 <= i < rest.len() && rest[i] == id;
            assert(ids[i] == id);
        }
    }
}

/// One change of a mirror: a page of works, newest first, offered at a
/// time, or the removal of the work with an id.
pub ghost enum MirrorOp {
    Insert { page: Seq<WorkView>, now: i64 },
    Delete { id: Seq<char> },
}

/// The mirror after one change.
pub open spec fn applied(mirror: MirrorView, op: MirrorOp) -> MirrorView {
    match op {
        MirrorOp::Insert { page, now } => taken_in(mirror, page, now),
        MirrorOp::Delete { id } => expelled(mirror, id),
    }
}

/// The mirror after a sequence of changes, made in order.
pub open spec fn applied_all(mirror: MirrorView, ops: Seq<MirrorOp>) -> MirrorView
    decreases ops.len(),
{
    if ops.len() == 0 {
        mirror
    } else {
        applied(applied_all(mirror, ops.drop_last()), ops.last())
    }
}

/// The counter invariant holds after every sequence of insertions and
/// deletions made on a sound mirror, and so after each single one of them:
/// every tag's count is the number of mirrored works that list the tag, and
/// no record holds a zero.
pub proof fn law_counter_invariant(mirror: MirrorView, ops: Seq<MirrorOp>)
    requires
        sound(mirror),
    ensures
        sound(applied_all(mirror, ops)),
        forall|id: Seq<char>| #[trigger]
            total_of(applied_all(mirror, ops).tags, id) == holders(
                applied_all(mirror, ops).works,
                id,
            ),
        forall|i: int|
            0 <= i < applied_all(mirror, ops).tags.len() ==> applied_all(
                mirror,
                ops,
            ).tags[i].total >= 1,
    decreases ops.len(),
{
    if ops.len() > 0 {
        law_counter_invariant(mirror, ops.drop_last());
        let before = applied_all(mirror, ops.drop_last());
        match ops.last() {
            MirrorOp::Insert { page, now } => lemma_taken_in_sound(before, page, now),
            MirrorOp::Delete { id } => lemma_expelled_sound(before, id),
        }
    }
}

/// An empty mirror is sound.
pub proof fn law_empty_mirror_is_sound()
    ensures
        sound(empty_mirror()),
{
}

} // verus!
