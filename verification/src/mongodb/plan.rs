//! Taking works in and letting one go as lists of single changes, for a
//! store that can only be changed one record at a time.

use crate::mongodb::bookmark_tags::{
    bumped, dropped, known, lemma_position, lemma_position_is, lowered, position, release_of,
    released, BookmarkTags, Release,
};
use crate::mongodb::bookmarks::{
    absorbed, dated_from, expelled, holds, lemma_work_position, tally, untally, work_position,
    MirrorView,
};
use crate::mongodb::counting::{lemma_absorbed_holds, lemma_holds};
use crate::mongodb::TagView;
use crate::pixiv::{PixivBookmarkPageBodyWork, WorkView};
use crate::text::{distinct, distinct_texts, has_text, lemma_distinct};
use vstd::prelude::*;

verus! {

/// One change of a store.
pub enum StoreOp {
    /// Count one more reference to the tag; its record is made where there
    /// is none.
    IncrementTag(String),
    /// Lower the count of the tag by one.
    DecrementTag(String),
    /// Remove the record of the tag.
    DeleteTag(String),
    /// Add the work behind the works that are there.
    InsertWork(PixivBookmarkPageBodyWork),
    /// Remove the work with the id.
    DeleteWork(String),
}

/// The mathematical value of a change.
pub ghost enum StoreOpView {
    IncrementTag(Seq<char>),
    DecrementTag(Seq<char>),
    DeleteTag(Seq<char>),
    InsertWork(WorkView),
    DeleteWork(Seq<char>),
}

impl View for StoreOp {
    type V = StoreOpView;

    open spec fn view(&self) -> StoreOpView {
        match self {
            StoreOp::IncrementTag(id) => StoreOpView::IncrementTag(id@),
            StoreOp::DecrementTag(id) => StoreOpView::DecrementTag(id@),
            StoreOp::DeleteTag(id) => StoreOpView::DeleteTag(id@),
            StoreOp::InsertWork(work) => StoreOpView::InsertWork(work@),
            StoreOp::DeleteWork(id) => StoreOpView::DeleteWork(id@),
        }
    }
}

impl DeepView for StoreOp {
    type V = StoreOpView;

    open spec fn deep_view(&self) -> StoreOpView {
        self@
    }
}

/// The mirror after one change.
pub open spec fn performed(mirror: MirrorView, op: StoreOpView) -> MirrorView {
    match op {
        StoreOpView::IncrementTag(id) => MirrorView { tags: bumped(mirror.tags, id), ..mirror },
        StoreOpView::DecrementTag(id) => MirrorView { tags: lowered(mirror.tags, id), ..mirror },
        StoreOpView::DeleteTag(id) => MirrorView { tags: dropped(mirror.tags, id), ..mirror },
        StoreOpView::InsertWork(work) => MirrorView { works: mirror.works.push(work), ..mirror },
        StoreOpView::DeleteWork(id) => if holds(mirror.works, id) {
            MirrorView { works: mirror.works.remove(work_position(mirror.works, id)), ..mirror }
        } else {
            mirror
        },
    }
}

/// The mirror after the changes, made in order.
pub open spec fn performed_all(mirror: MirrorView, ops: Seq<StoreOpView>) -> MirrorView
    decreases ops.len(),
{
    if ops.len() == 0 {
        mirror
    } else {
        performed(performed_all(mirror, ops.drop_last()), ops.last())
    }
}

/// What one reference less to the tag asks of the store: nothing where the
/// tag has no record, the removal of a record that counts one reference or
/// none, and else a count lowered by one.
pub open spec fn release_op(records: Seq<TagView>, id: Seq<char>) -> Seq<StoreOpView> {
    if !known(records, id) {
        Seq::empty()
    } else if records[position(records, id)].total <= 1 {
        seq![StoreOpView::DeleteTag(id)]
    } else {
        seq![StoreOpView::DecrementTag(id)]
    }
}

/// What one reference less to each of the tags asks of the store.
pub open spec fn release_ops(records: Seq<TagView>, ids: Seq<Seq<char>>) -> Seq<StoreOpView>
    decreases ids.len(),
{
    if ids.len() == 0 {
        Seq::empty()
    } else {
        release_ops(records, ids.drop_last()) + release_op(records, ids.last())
    }
}

/// The changes that let a work go: one reference less for each tag that it
/// lists, then the work itself.
pub open spec fn removal_ops(work: WorkView, records: Seq<TagView>) -> Seq<StoreOpView> {
    release_ops(records, distinct(work.tags)).push(StoreOpView::DeleteWork(work.id))
}

/// One more reference to each of the tags, in order.
pub open spec fn increments(ids: Seq<Seq<char>>) -> Seq<StoreOpView> {
    Seq::new(ids.len(), |i: int| StoreOpView::IncrementTag(ids[i]))
}

/// The changes that take one work in: one more reference for each tag that
/// it lists, then the work itself.
pub open spec fn intake_ops(work: WorkView) -> Seq<StoreOpView> {
    increments(distinct(work.tags)).push(StoreOpView::InsertWork(work))
}

/// Whether one of the works has the id.
pub open spec fn among(works: Seq<WorkView>, id: Seq<char>) -> bool {
    exists|i: int| 0 <= i < works.len() && (#[trigger] works[i]).id == id
}

/// The changes that take a batch in, oldest work first: those of each work
/// in turn, but for a work whose id the store holds or a work before it in
/// the batch has. `held` lists the ids of the batch that the store holds.
pub open spec fn insert_ops(batch: Seq<WorkView>, held: Seq<Seq<char>>) -> Seq<StoreOpView>
    decreases batch.len(),
{
    if batch.len() == 0 {
        Seq::empty()
    } else if held.contains(batch.last().id) || among(batch.drop_last(), batch.last().id) {
        insert_ops(batch.drop_last(), held)
    } else {
        insert_ops(batch.drop_last(), held) + intake_ops(batch.last())
    }
}

/// A reference less to one tag leaves the record of every other tag as it
/// is.
pub proof fn lemma_released_other(records: Seq<TagView>, gone: Seq<char>, id: Seq<char>)
    requires
        gone != id,
    ensures
        known(released(records, gone), id) == known(records, id),
        known(records, id) ==> released(records, gone)[position(released(records, gone), id)]
            == records[position(records, id)],
{
    let after = released(records, gone);
    lemma_position(records, gone);
    lemma_position(records, id);
    let at = position(records, id);
    let out = position(records, gone);
    if !known(records, gone) {
    } else if records[out].total > 1 {
        lemma_position_is(after, id, at);
    } else if at < out {
        lemma_position_is(after, id, at);
    } else if known(records, id) {
        lemma_position_is(after, id, at - 1);
    } else {
        lemma_position_is(after, id, after.len() as int);
    }
}

/// References less to some tags leave the record of every other tag as it
/// is.
pub proof fn lemma_untally_other(records: Seq<TagView>, ids: Seq<Seq<char>>, id: Seq<char>)
    requires
        !ids.contains(id),
    ensures
        known(untally(records, ids), id) == known(records, id),
        known(records, id) ==> untally(records, ids)[position(untally(records, ids), id)]
            == records[position(records, id)],
    decreases ids.len(),
{
    if ids.len() > 0 {
        let rest = ids.drop_last();
        if rest.contains(id) {
            let k = choose|k: int| 0 <= k < rest.len() && rest[k] == id;
            assert(ids[k] == id);
        }
        assert(ids[ids.len() - 1] != id);
        lemma_untally_other(records, rest, id);
        lemma_released_other(untally(records, rest), ids.last(), id);
    }
}

/// Changes made one list after the other are the changes of both lists made
/// in one.
pub proof fn lemma_performed_add(mirror: MirrorView, first: Seq<StoreOpView>, then: Seq<StoreOpView>)
    ensures
        performed_all(mirror, first + then) == performed_all(performed_all(mirror, first), then),
    decreases then.len(),
{
    if then.len() == 0 {
        assert(first + then =~= first);
    } else {
        lemma_performed_add(mirror, first, then.drop_last());
        assert((first + then).drop_last() =~= first + then.drop_last());
        assert((first + then).last() == then.last());
    }
}

/// The changes planned for references less to tags, no tag twice, leave the
/// records as the references gone one after the other leave them.
pub proof fn lemma_release_ops(mirror: MirrorView, ids: Seq<Seq<char>>)
    requires
        forall|i: int, j: int| 0 <= i < j < ids.len() ==> ids[i] != ids[j],
    ensures
        performed_all(mirror, release_ops(mirror.tags, ids)) == (MirrorView {
            tags: untally(mirror.tags, ids),
            ..mirror
        }),
    decreases ids.len(),
{
    if ids.len() > 0 {
        let rest = ids.drop_last();
        let last = ids.last();
        lemma_release_ops(mirror, rest);
        let before = MirrorView { tags: untally(mirror.tags, rest), ..mirror };
        if rest.contains(last) {
            let k = choose|k: int| 0 <= k < rest.len() && rest[k] == last;
            assert(ids[k] == ids[ids.len() - 1]);
        }
        lemma_untally_other(mirror.tags, rest, last);
        lemma_performed_add(mirror, release_ops(mirror.tags, rest), release_op(mirror.tags, last));
        let op = release_op(mirror.tags, last);
        if op.len() > 0 {
            assert(op.drop_last() =~= Seq::<StoreOpView>::empty());
            assert(performed_all(before, op.drop_last()) == before);
            assert(performed_all(before, op).tags =~= released(before.tags, last));
        }
    }
}

/// The changes planned for letting a work go come to the mirror without the
/// work and without one reference for each tag that it lists.
pub proof fn law_removal_plan(mirror: MirrorView, id: Seq<char>)
    requires
        holds(mirror.works, id),
    ensures
        performed_all(
            mirror,
            removal_ops(mirror.works[work_position(mirror.works, id)], mirror.tags),
        ) == expelled(mirror, id),
{
    lemma_work_position(mirror.works, id);
    let work = mirror.works[work_position(mirror.works, id)];
    let ids = distinct(work.tags);
    lemma_distinct(work.tags);
    lemma_release_ops(mirror, ids);
    let ops = removal_ops(work, mirror.tags);
    assert(ops.drop_last() =~= release_ops(mirror.tags, ids));
}

/// The changes planned for more references come to the records with each
/// reference counted.
pub proof fn lemma_increments(mirror: MirrorView, ids: Seq<Seq<char>>)
    ensures
        performed_all(mirror, increments(ids)) == (MirrorView {
            tags: tally(mirror.tags, ids),
            ..mirror
        }),
    decreases ids.len(),
{
    if ids.len() > 0 {
        lemma_increments(mirror, ids.drop_last());
        assert(increments(ids).drop_last() =~= increments(ids.drop_last()));
    }
}

/// A work is held after a batch was taken in only where the mirror held it
/// or the batch has it.
pub proof fn lemma_absorbed_held_from(
    mirror: MirrorView,
    batch: Seq<WorkView>,
    base: int,
    id: Seq<char>,
)
    requires
        holds(absorbed(mirror, batch, base).works, id),
    ensures
        holds(mirror.works, id) || among(batch, id),
    decreases batch.len(),
{
    if batch.len() > 0 {
        let rest = batch.drop_last();
        let before = absorbed(mirror, rest, base);
        let after = absorbed(mirror, batch, base);
        lemma_holds(after.works, id);
        lemma_holds(before.works, id);
        let j = choose|j: int| 0 <= j < after.works.len() && (#[trigger] after.works[j]).id == id;
        if j < before.works.len() {
            assert(before.works[j].id == id);
            lemma_absorbed_held_from(mirror, rest, base, id);
            if among(rest, id) {
                let i = choose|i: int| 0 <= i < rest.len() && (#[trigger] rest[i]).id == id;
                assert(batch[i].id == id);
            }
        } else {
            assert(batch[batch.len() - 1].id == id);
        }
    }
}

/// The changes planned for a batch come to the mirror with the batch taken
/// in, where `held` tells of every work of the batch whether the mirror
/// holds it.
pub proof fn law_insert_plan(
    mirror: MirrorView,
    batch: Seq<WorkView>,
    base: int,
    held: Seq<Seq<char>>,
)
    requires
        forall|i: int|
            0 <= i < batch.len() ==> (held.contains((#[trigger] batch[i]).id) <==> holds(
                mirror.works,
                batch[i].id,
            )),
    ensures
        performed_all(mirror, insert_ops(dated_from(batch, base), held)) == absorbed(
            mirror,
            batch,
            base,
        ),
    decreases batch.len(),
{
    if batch.len() > 0 {
        let rest = batch.drop_last();
        let last = batch.last();
        let ready = dated_from(batch, base);
        assert forall|i: int| 0 <= i < rest.len() implies (held.contains((#[trigger] rest[i]).id)
            <==> holds(mirror.works, rest[i].id)) by {
            assert(rest[i] == batch[i]);
        }
        law_insert_plan(mirror, rest, base, held);
        let before = absorbed(mirror, rest, base);
        assert(ready.drop_last() =~= dated_from(rest, base));
        assert(ready.last().id == last.id);
        assert(held.contains(batch[batch.len() - 1].id) <==> holds(mirror.works, last.id));
        if among(ready.drop_last(), last.id) {
            let i = choose|i: int|
                0 <= i < ready.drop_last().len() && (#[trigger] ready.drop_last()[i]).id == last.id;
            assert(rest[i].id == last.id);
            lemma_absorbed_holds(mirror, rest, base, last.id);
        }
        if holds(mirror.works, last.id) {
            lemma_absorbed_holds(mirror, rest, base, last.id);
        }
        if holds(before.works, last.id) {
            lemma_absorbed_held_from(mirror, rest, base, last.id);
            if among(rest, last.id) {
                let i = choose|i: int| 0 <= i < rest.len() && (#[trigger] rest[i]).id == last.id;
                assert(ready.drop_last()[i].id == last.id);
            }
        } else {
            let work = ready.last();
            let taken = increments(distinct(work.tags));
            lemma_performed_add(mirror, insert_ops(ready.drop_last(), held), intake_ops(work));
            lemma_increments(before, distinct(work.tags));
            assert(intake_ops(work).drop_last() =~= taken);
        }
    }
}

/// The changes that let the work go, given the records that the store holds
/// of its tags.
pub fn removal_plan(work: &PixivBookmarkPageBodyWork, records: &BookmarkTags) -> (ops: Vec<StoreOp>)
    ensures
        ops.deep_view() == removal_ops(work@, records@),
{
    let once = distinct_texts(&work.tags);
    let ghost ids = once.deep_view();
    let mut ops: Vec<StoreOp> = Vec::new();
    let mut i: usize = 0;
    assert(ids.take(0) =~= Seq::<Seq<char>>::empty());
    assert(ops.deep_view() =~= Seq::<StoreOpView>::empty());
    while i < once.len()
        invariant
            i <= once.len(),
            ids == once.deep_view(),
            ops.deep_view() == release_ops(records@, ids.take(i as int)),
        decreases once.len() - i,
    {
        let ghost before = ops.deep_view();
        assert(ids.take(i + 1).drop_last() =~= ids.take(i as int));
        assert(ids.take(i + 1).last() == ids[i as int]);
        match records.get_exact(&once[i]) {
            Some(record) => {
                match release_of(record.total) {
                    Release::Delete => {
                        ops.push(StoreOp::DeleteTag(once[i].clone()));
                        assert(ops.deep_view() =~= before + seq![
                            StoreOpView::DeleteTag(ids[i as int]),
                        ]);
                    },
                    Release::Decrement => {
                        ops.push(StoreOp::DecrementTag(once[i].clone()));
                        assert(ops.deep_view() =~= before + seq![
                            StoreOpView::DecrementTag(ids[i as int]),
                        ]);
                    },
                }
            },
            None => {
                assert(before + Seq::<StoreOpView>::empty() =~= before);
            },
        }
        i += 1;
    }
    assert(ids.take(i as int) =~= ids);
    let ghost before = ops.deep_view();
    ops.push(StoreOp::DeleteWork(work.id.clone()));
    assert(ops.deep_view() =~= before.push(StoreOpView::DeleteWork(work@.id)));
    ops
}

/// The changes that take a batch in, oldest work first, given the ids of
/// the batch that the store holds already. The works are to be as the
/// store keeps them.
pub fn insert_plan(batch: &Vec<PixivBookmarkPageBodyWork>, held: &Vec<String>) -> (ops: Vec<StoreOp>)
    ensures
        ops.deep_view() == insert_ops(batch.deep_view(), held.deep_view()),
{
    let ghost all = batch.deep_view();
    let mut ops: Vec<StoreOp> = Vec::new();
    let mut seen: Vec<String> = Vec::new();
    let mut i: usize = 0;
    assert(all.take(0) =~= Seq::<WorkView>::empty());
    assert(ops.deep_view() =~= Seq::<StoreOpView>::empty());
    while i < batch.len()
        invariant
            i <= batch.len(),
            all == batch.deep_view(),
            seen.len() == i,
            forall|k: int| 0 <= k < i ==> (#[trigger] seen[k])@ == all[k].id,
            ops.deep_view() == insert_ops(all.take(i as int), held.deep_view()),
        decreases batch.len() - i,
    {
        let ghost before = ops.deep_view();
        let ghost part = all.take(i as int);
        proof {
            assert(all.take(i + 1).drop_last() =~= part);
            assert(all.take(i + 1).last() == all[i as int]);
            if seen.deep_view().contains(all[i as int].id) {
                let k = choose|k: int|
                    0 <= k < seen.deep_view().len() && seen.deep_view()[k] == all[i as int].id;
                assert(part[k].id == all[i as int].id);
            }
            if among(part, all[i as int].id) {
                let k = choose|k: int| 0 <= k < part.len() && (#[trigger] part[k]).id == all[i as int].id;
                assert(seen.deep_view()[k] == all[i as int].id);
            }
        }
        let work = &batch[i];
        if !has_text(held, &work.id) && !has_text(&seen, &work.id) {
            let once = distinct_texts(&work.tags);
            let mut j: usize = 0;
            while j < once.len()
                invariant
                    j <= once.len(),
                    once.deep_view() == distinct(all[i as int].tags),
                    ops.deep_view() == before + increments(once.deep_view()).take(j as int),
                decreases once.len() - j,
            {
                let ghost so_far = ops.deep_view();
                ops.push(StoreOp::IncrementTag(once[j].clone()));
                assert(ops.deep_view() =~= so_far.push(StoreOpView::IncrementTag(once.deep_view()[j as int])));
                assert(ops.deep_view() =~= before + increments(once.deep_view()).take(j + 1));
                j += 1;
            }
            let ghost so_far = ops.deep_view();
            ops.push(StoreOp::InsertWork(work.clone()));
            assert(ops.deep_view() =~= so_far.push(StoreOpView::InsertWork(all[i as int])));
            assert(ops.deep_view() =~= before + intake_ops(all[i as int]));
        }
        seen.push(work.id.clone());
        i += 1;
    }
    assert(all.take(i as int) =~= all);
    ops
}

} // verus!
