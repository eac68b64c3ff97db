//! The mirrored works and what taking one in or letting one go does to the
//! tag counts.

use crate::mongodb::bookmark_tags::{bumped, released, total_of, BookmarkTags};
use crate::mongodb::{StoreError, TagView};
use crate::pixiv::{PixivBookmarkPageBodyWork, WorkView, PIXIV_BOOKMARKS_PER_PAGE};
use crate::routes::bookmarks::{admits, PaginationSort, TagFilter};
use crate::text::{distinct, distinct_texts, lowercase_all, lowercase_each};
use vstd::prelude::*;

verus! {

/// The mathematical value of a mirror: the works in the order in which they
/// were taken in, oldest first, and the tag records.
pub ghost struct MirrorView {
    pub works: Seq<WorkView>,
    pub tags: Seq<TagView>,
}

/// The index of the first work with the id, or the number of works where
/// none has it.
pub open spec fn work_position(works: Seq<WorkView>, id: Seq<char>) -> int
    decreases works.len(),
{
    if works.len() == 0 {
        0
    } else if works[0].id == id {
        0
    } else {
        1 + work_position(works.drop_first(), id)
    }
}

/// Whether a work with the id is among the works.
pub open spec fn holds(works: Seq<WorkView>, id: Seq<char>) -> bool {
    work_position(works, id) < works.len()
}

/// `work_position` is the least index at which the id stands.
pub proof fn lemma_work_position(works: Seq<WorkView>, id: Seq<char>)
    ensures
        0 <= work_position(works, id) <= works.len(),
        forall|j: int| 0 <= j < work_position(works, id) ==> works[j].id != id,
        holds(works, id) ==> works[work_position(works, id)].id == id,
    decreases works.len(),
{
    if works.len() > 0 && works[0].id != id {
        let rest = works.drop_first();
        lemma_work_position(rest, id);
        assert forall|j: int| 0 <= j < work_position(works, id) implies works[j].id != id by {
            if j > 0 {
                assert(works[j] == rest[j - 1]);
            }
        }
        if holds(works, id) {
            assert(works[work_position(works, id)] == rest[work_position(rest, id)]);
        }
    }
}

/// An index before which the id does not stand, and at which it stands or
/// the works end, is its position.
pub proof fn lemma_work_position_is(works: Seq<WorkView>, id: Seq<char>, at: int)
    requires
        0 <= at <= works.len(),
        forall|j: int| 0 <= j < at ==> works[j].id != id,
        at < works.len() ==> works[at].id == id,
    ensures
        work_position(works, id) == at,
{
    lemma_work_position(works, id);
}

/// The records after one more reference to each of the ids, in order.
pub open spec fn tally(tags: Seq<TagView>, ids: Seq<Seq<char>>) -> Seq<TagView>
    decreases ids.len(),
{
    if ids.len() == 0 {
        tags
    } else {
        bumped(tally(tags, ids.drop_last()), ids.last())
    }
}

/// Whether every one of those references can be counted.
pub open spec fn tally_fits(tags: Seq<TagView>, ids: Seq<Seq<char>>) -> bool
    decreases ids.len(),
{
    ids.len() == 0 || (tally_fits(tags, ids.drop_last()) && total_of(
        tally(tags, ids.drop_last()),
        ids.last(),
    ) < u64::MAX)
}

/// The records after one reference to each of the ids has gone, in order.
pub open spec fn untally(tags: Seq<TagView>, ids: Seq<Seq<char>>) -> Seq<TagView>
    decreases ids.len(),
{
    if ids.len() == 0 {
        tags
    } else {
        released(untally(tags, ids.drop_last()), ids.last())
    }
}

/// A work as the mirror keeps it: dated, its tags in lower case, all else as
/// it came.
pub open spec fn stored(work: WorkView, stamp: int) -> WorkView {
    WorkView { sync_date: Some(stamp as i64), tags: lowercase_each(work.tags), ..work }
}

/// The date of the work taken in last, if there is one and it is dated.
pub open spec fn newest_date(works: Seq<WorkView>) -> Option<i64> {
    if works.len() > 0 {
        works.last().sync_date
    } else {
        None
    }
}

/// The first sync date of a batch taken in at the time `now`, after a work
/// dated `newest`: `now`, or the moment after `newest` where the clock is
/// not past it.
pub open spec fn stamp_after(newest: Option<i64>, now: i64) -> int {
    if newest is Some && newest->0 >= now {
        newest->0 + 1
    } else {
        now as int
    }
}

/// The first sync date that a batch taken in at the time `now` gets.
pub open spec fn next_stamp(works: Seq<WorkView>, now: i64) -> int {
    stamp_after(newest_date(works), now)
}

/// A page of works, newest first, as a batch dated from `base` on: oldest
/// work first, each as the mirror keeps it.
pub open spec fn prepared(page: Seq<WorkView>, base: int) -> Seq<WorkView> {
    Seq::new(page.len(), |i: int| stored(page[page.len() - 1 - i], base + i))
}

/// The first sync date of a batch taken in at the time `now`, after a work
/// dated `newest`, where there is a date left.
pub fn first_stamp(newest: Option<i64>, now: i64) -> (base: Option<i64>)
    ensures
        base is Some <==> stamp_after(newest, now) <= i64::MAX,
        base is Some ==> base->0 == stamp_after(newest, now),
{
    match newest {
        Some(last) => {
            if last >= now {
                if last == i64::MAX {
                    None
                } else {
                    Some(last + 1)
                }
            } else {
                Some(now)
            }
        },
        None => Some(now),
    }
}

/// A page of works, newest first, made ready for a mirror: turned round,
/// the tags in lower case, the works dated from `base` on. None where the
/// dates run out.
pub fn prepare_batch(bookmarks: Vec<PixivBookmarkPageBodyWork>, base: i64) -> (batch: Option<
    Vec<PixivBookmarkPageBodyWork>,
>)
    ensures
        batch is Some <==> datable(bookmarks.len() as nat, base as int),
        batch is Some ==> batch->0.deep_view() == prepared(bookmarks.deep_view(), base as int),
{
    let mut rest = bookmarks;
    let n = rest.len();
    let mut batch: Vec<PixivBookmarkPageBodyWork> = Vec::new();
    if n == 0 {
        assert(batch.deep_view() =~= prepared(bookmarks.deep_view(), base as int));
        return Some(batch);
    }
    if base as i128 + n as i128 - 1 > i64::MAX as i128 {
        return None;
    }
    let mut i: usize = 0;
    while i < n
        invariant
            i <= n,
            n == bookmarks.len(),
            rest.len() == n - i,
            rest.deep_view() == bookmarks.deep_view().take(n - i),
            base + n - 1 <= i64::MAX,
            batch.len() == i,
            forall|k: int|
                0 <= k < i ==> (#[trigger] batch[k])@ == stored(
                    bookmarks.deep_view()[n - 1 - k],
                    base + k,
                ),
        decreases n - i,
    {
        assert(rest.deep_view()[n - i - 1] == bookmarks.deep_view()[n - i - 1]);
        let mut work = rest.pop().unwrap();
        assert(rest.deep_view() =~= bookmarks.deep_view().take(n - (i + 1)));
        work.tags = lowercase_all(&work.tags);
        let stamp: i128 = base as i128 + i as i128;
        work.sync_date = Some(stamp as i64);
        batch.push(work);
        i += 1;
    }
    assert(batch.deep_view() =~= prepared(bookmarks.deep_view(), base as int));
    Some(batch)
}

/// The mirror after the works of a batch were taken in, in the order of the
/// batch. The work at index `i` gets the date `base + i`; one whose id the
/// mirror holds by then is left out. A work counts one reference for each
/// tag that it lists, however often it lists the tag.
pub open spec fn absorbed(mirror: MirrorView, batch: Seq<WorkView>, base: int) -> MirrorView
    decreases batch.len(),
{
    if batch.len() == 0 {
        mirror
    } else {
        let before = absorbed(mirror, batch.drop_last(), base);
        let work = stored(batch.last(), base + batch.len() - 1);
        if holds(before.works, work.id) {
            before
        } else {
            MirrorView {
                works: before.works.push(work),
                tags: tally(before.tags, distinct(work.tags)),
            }
        }
    }
}

/// Whether every tag reference of the batch can be counted.
pub open spec fn absorbable(mirror: MirrorView, batch: Seq<WorkView>, base: int) -> bool
    decreases batch.len(),
{
    batch.len() == 0 || {
        let before = absorbed(mirror, batch.drop_last(), base);
        &&& absorbable(mirror, batch.drop_last(), base)
        &&& holds(before.works, batch.last().id) || tally_fits(
            before.tags,
            distinct(lowercase_each(batch.last().tags)),
        )
    }
}

/// Whether a batch of that many works can be dated from `base` on.
pub open spec fn datable(len: nat, base: int) -> bool {
    len == 0 || base + len - 1 <= i64::MAX
}

/// The mirror after a page of works, newest first, was offered to it at the
/// time `now`: the page taken in oldest first, or the mirror as it was where
/// a date or a count cannot be given.
pub open spec fn taken_in(mirror: MirrorView, page: Seq<WorkView>, now: i64) -> MirrorView {
    let base = next_stamp(mirror.works, now);
    if datable(page.len(), base) && absorbable(mirror, page.reverse(), base) {
        absorbed(mirror, page.reverse(), base)
    } else {
        mirror
    }
}

/// What the mirror says to a page of works, newest first, offered to it at
/// the time `now`. `ClockExhausted`: the works cannot all be dated.
/// `CounterOverflow`: a tag count cannot grow. In both cases nothing is
/// taken in. `DuplicateId`: a work was left out because its id was mirrored
/// already or stood twice on the page; the others were taken in.
pub open spec fn verdict(mirror: MirrorView, page: Seq<WorkView>, now: i64) -> Result<
    (),
    StoreError,
> {
    let base = next_stamp(mirror.works, now);
    if !datable(page.len(), base) {
        Err(StoreError::ClockExhausted)
    } else if !absorbable(mirror, page.reverse(), base) {
        Err(StoreError::CounterOverflow)
    } else if absorbed(mirror, page.reverse(), base).works.len() < mirror.works.len() + page.len() {
        Err(StoreError::DuplicateId)
    } else {
        Ok(())
    }
}

/// The mirror without the first work that has the id, and without one
/// reference for each tag that it lists, however often it lists the tag.
pub open spec fn expelled(mirror: MirrorView, id: Seq<char>) -> MirrorView {
    let at = work_position(mirror.works, id);
    if holds(mirror.works, id) {
        MirrorView {
            works: mirror.works.remove(at),
            tags: untally(mirror.tags, distinct(mirror.works[at].tags)),
        }
    } else {
        mirror
    }
}

/// The works that pass the filter, in order: all of them where there is no
/// filter.
pub open spec fn admitted(works: Seq<WorkView>, filter: Option<Seq<Seq<Seq<char>>>>) -> Seq<
    WorkView,
>
    decreases works.len(),
{
    if works.len() == 0 {
        works
    } else if filter is None || admits(filter->0, works.last().tags) {
        admitted(works.drop_last(), filter).push(works.last())
    } else {
        admitted(works.drop_last(), filter)
    }
}

/// The limit that a query is answered with: none below zero, and none above
/// the size of a page.
pub open spec fn capped(limit: i64) -> nat {
    if limit <= 0 {
        0
    } else if limit > PIXIV_BOOKMARKS_PER_PAGE {
        PIXIV_BOOKMARKS_PER_PAGE as nat
    } else {
        limit as nat
    }
}

/// The limit that a query is answered with: none below zero, and none above
/// the size of a page.
pub fn cap_limit(limit: i64) -> (cap: i64)
    ensures
        cap == capped(limit),
{
    if limit <= 0 {
        0
    } else if limit > PIXIV_BOOKMARKS_PER_PAGE {
        PIXIV_BOOKMARKS_PER_PAGE
    } else {
        limit
    }
}

/// The items from `offset` on, at most `limit` of them.
pub open spec fn slice_of<T>(items: Seq<T>, offset: nat, limit: nat) -> Seq<T> {
    if offset >= items.len() {
        Seq::empty()
    } else if offset + limit >= items.len() {
        items.skip(offset as int)
    } else {
        items.subrange(offset as int, offset as int + limit as int)
    }
}

/// What a query finds: of the works that pass the filter, in the order asked
/// for, those from `offset` on, at most `capped(limit)` of them.
pub open spec fn found(
    works: Seq<WorkView>,
    filter: Option<Seq<Seq<Seq<char>>>>,
    offset: u64,
    limit: i64,
    sort: PaginationSort,
) -> Seq<WorkView> {
    let passing = admitted(works, filter);
    let listed = if sort == PaginationSort::Descending {
        passing.reverse()
    } else {
        passing
    };
    slice_of(listed, offset as nat, capped(limit))
}

/// The works of a batch, each as the mirror keeps it, dated from `base` on
/// in the order of the batch.
pub open spec fn dated_from(batch: Seq<WorkView>, base: int) -> Seq<WorkView> {
    Seq::new(batch.len(), |i: int| stored(batch[i], base + i))
}

/// A batch of which no work was left out stands behind the works that the
/// mirror held, in its order and as the mirror keeps it.
pub proof fn lemma_absorbed_full(mirror: MirrorView, batch: Seq<WorkView>, base: int)
    requires
        absorbed(mirror, batch, base).works.len() == mirror.works.len() + batch.len(),
    ensures
        absorbed(mirror, batch, base).works == mirror.works + dated_from(batch, base),
    decreases batch.len(),
{
    if batch.len() == 0 {
        assert(mirror.works + dated_from(batch, base) =~= mirror.works);
    } else {
        let rest = batch.drop_last();
        lemma_absorbed_extends(mirror, rest, base);
        lemma_absorbed_full(mirror, rest, base);
        assert(absorbed(mirror, batch, base).works =~= mirror.works + dated_from(batch, base));
    }
}

/// With no filter every work passes.
pub proof fn lemma_admitted_all(works: Seq<WorkView>)
    ensures
        admitted(works, None) == works,
    decreases works.len(),
{
    if works.len() > 0 {
        lemma_admitted_all(works.drop_last());
        assert(works.drop_last().push(works.last()) =~= works);
    }
}

/// Counting a part of the references fits where counting all of them does.
pub proof fn lemma_tally_fits_prefix(tags: Seq<TagView>, ids: Seq<Seq<char>>, n: int)
    requires
        0 <= n <= ids.len(),
        tally_fits(tags, ids),
    ensures
        tally_fits(tags, ids.take(n)),
    decreases ids.len(),
{
    if n < ids.len() {
        lemma_tally_fits_prefix(tags, ids.drop_last(), n);
        assert(ids.drop_last().take(n) =~= ids.take(n));
    } else {
        assert(ids.take(n) =~= ids);
    }
}

/// Taking in a part of a batch can be counted where taking in all of it can.
pub proof fn lemma_absorbable_prefix(mirror: MirrorView, batch: Seq<WorkView>, base: int, n: int)
    requires
        0 <= n <= batch.len(),
        absorbable(mirror, batch, base),
    ensures
        absorbable(mirror, batch.take(n), base),
    decreases batch.len(),
{
    if n < batch.len() {
        lemma_absorbable_prefix(mirror, batch.drop_last(), base, n);
        assert(batch.drop_last().take(n) =~= batch.take(n));
    } else {
        assert(batch.take(n) =~= batch);
    }
}

/// Taking works in leaves those already mirrored where they were.
pub proof fn lemma_absorbed_extends(mirror: MirrorView, batch: Seq<WorkView>, base: int)
    ensures
        mirror.works.len() <= absorbed(mirror, batch, base).works.len() <= mirror.works.len()
            + batch.len(),
        absorbed(mirror, batch, base).works.take(mirror.works.len() as int) == mirror.works,
    decreases batch.len(),
{
    if batch.len() > 0 {
        lemma_absorbed_extends(mirror, batch.drop_last(), base);
        let before = absorbed(mirror, batch.drop_last(), base);
        let after = absorbed(mirror, batch, base);
        assert(after.works.take(mirror.works.len() as int) =~= before.works.take(
            mirror.works.len() as int,
        ));
    } else {
        assert(mirror.works.take(mirror.works.len() as int) =~= mirror.works);
    }
}

/// Counts one more reference to each of the ids, in order, and says whether
/// all of them could be counted. Where one could not, the records are left
/// with those before it counted.
fn count_all(tags: &mut BookmarkTags, ids: &Vec<String>) -> (fits: bool)
    ensures
        fits == tally_fits(old(tags)@, ids.deep_view()),
        fits ==> final(tags)@ == tally(old(tags)@, ids.deep_view()),
{
    let ghost all = ids.deep_view();
    let mut j: usize = 0;
    while j < ids.len()
        invariant
            j <= ids.len(),
            all == ids.deep_view(),
            tags@ == tally(old(tags)@, all.take(j as int)),
            tally_fits(old(tags)@, all.take(j as int)),
        decreases ids.len() - j,
    {
        assert(all.take(j + 1).drop_last() =~= all.take(j as int));
        if tags.increment_exact(ids[j].clone()).is_err() {
            proof {
                if tally_fits(old(tags)@, all) {
                    lemma_tally_fits_prefix(old(tags)@, all, j + 1);
                }
            }
            return false;
        }
        j += 1;
    }
    assert(all.take(j as int) =~= all);
    true
}

/// `std::time::SystemTime::now`: the present time, as the microseconds that
/// have passed since the Unix epoch. Nothing is promised of the number: it
/// is whatever the system clock says. There is none where that clock stands
/// before the epoch, or so far behind it that the number cannot be held.
#[verifier::external_body]
fn now_micros() -> Option<i64> {
    let elapsed = std::time::SystemTime::now().duration_since(std::time::UNIX_EPOCH).ok()?;
    i64::try_from(elapsed.as_micros()).ok()
}

/// The mirrored works with their tag counter.
pub struct Bookmarks {
    /// The works, oldest first.
    pub collection: Vec<PixivBookmarkPageBodyWork>,
    pub tags: BookmarkTags,
}

impl View for Bookmarks {
    type V = MirrorView;

    open spec fn view(&self) -> MirrorView {
        MirrorView { works: self.collection.deep_view(), tags: self.tags@ }
    }
}

impl Bookmarks {
    /// A mirror over the works and the tag records given.
    pub fn new(collection: Vec<PixivBookmarkPageBodyWork>, tags: BookmarkTags) -> (mirror: Self)
        ensures
            mirror@ == (MirrorView { works: collection.deep_view(), tags: tags@ }),
    {
        Self { collection, tags }
    }

    /// Where the work with the id stands.
    fn locate(&self, id: &String) -> (at: usize)
        ensures
            at == work_position(self@.works, id@),
            at <= self.collection.len(),
    {
        let mut at: usize = 0;
        while at < self.collection.len()
            invariant
                at <= self.collection.len(),
                forall|j: int| 0 <= j < at ==> self@.works[j].id != id@,
            decreases self.collection.len() - at,
        {
            if self.collection[at].id == *id {
                proof {
                    lemma_work_position_is(self@.works, id@, at as int);
                }
                return at;
            }
            at += 1;
        }
        proof {
            lemma_work_position_is(self@.works, id@, at as int);
        }
        at
    }

    /// Whether a work with the id is mirrored.
    pub fn contains(&self, id: &String) -> (held: bool)
        ensures
            held == holds(self@.works, id@),
    {
        self.locate(id) < self.collection.len()
    }

    /// The mirrored work with the id.
    pub fn get(&self, id: &String) -> (found: Option<PixivBookmarkPageBodyWork>)
        ensures
            found is Some <==> holds(self@.works, id@),
            found is Some ==> found->0@ == self@.works[work_position(self@.works, id@)],
    {
        let at = self.locate(id);
        if at < self.collection.len() {
            Some(self.collection[at].clone())
        } else {
            None
        }
    }

    /// Whether the work passes the filter.
    fn passes(work: &PixivBookmarkPageBodyWork, filter: &Option<TagFilter>) -> (yes: bool)
        ensures
            yes == (filter is None || admits(filter->0@, work@.tags)),
    {
        match filter {
            None => true,
            Some(filter) => filter.admits(&work.tags),
        }
    }

    /// Where the works that pass the filter stand, in order.
    fn admitted_at(&self, filter: &Option<TagFilter>) -> (at: Vec<usize>)
        ensures
            at.len() == admitted(self@.works, filter.deep_view()).len(),
            forall|k: int|
                0 <= k < at.len() ==> (#[trigger] at[k]) < self.collection.len()
                    && self@.works[at[k] as int] == admitted(self@.works, filter.deep_view())[k],
    {
        let ghost all = self@.works;
        let ghost groups = filter.deep_view();
        let mut at: Vec<usize> = Vec::new();
        let mut i: usize = 0;
        assert(all.take(0) =~= Seq::<WorkView>::empty());
        while i < self.collection.len()
            invariant
                i <= self.collection.len(),
                all == self@.works,
                groups == filter.deep_view(),
                at.len() == admitted(all.take(i as int), groups).len(),
                forall|k: int|
                    0 <= k < at.len() ==> (#[trigger] at[k]) < self.collection.len()
                        && all[at[k] as int] == admitted(all.take(i as int), groups)[k],
            decreases self.collection.len() - i,
        {
            let ghost before = at@;
            let ghost part = admitted(all.take(i as int), groups);
            assert(all.take(i + 1).drop_last() =~= all.take(i as int));
            assert(all.take(i + 1).last() == all[i as int]);
            if Self::passes(&self.collection[i], filter) {
                at.push(i);
                assert(admitted(all.take(i + 1), groups) == part.push(all[i as int]));
                assert forall|k: int| 0 <= k < at.len() implies (#[trigger] at[k])
                    < self.collection.len() && all[at[k] as int] == admitted(
                    all.take(i + 1),
                    groups,
                )[k] by {
                    if k < before.len() {
                        assert(at[k] == before[k]);
                    }
                }
            }
            i += 1;
        }
        assert(all.take(i as int) =~= all);
        at
    }

    /// The number of mirrored works that pass the filter: of all mirrored
    /// works where there is no filter.
    pub fn count(&self, filter: &Option<TagFilter>) -> (count: u64)
        ensures
            count == admitted(self@.works, filter.deep_view()).len(),
    {
        let at = self.admitted_at(filter);
        at.len() as u64
    }

    /// The mirrored works that pass the filter, in the order asked for, from
    /// `offset` on. At most `limit` works are given, never more than a page
    /// holds, and none where the limit is not above zero.
    pub fn find(&self, filter: &Option<TagFilter>, offset: u64, limit: i64, sort: PaginationSort) -> (works:
        Vec<PixivBookmarkPageBodyWork>)
        ensures
            works.deep_view() == found(self@.works, filter.deep_view(), offset, limit, sort),
    {
        let at = self.admitted_at(filter);
        let ghost passing = admitted(self@.works, filter.deep_view());
        let ghost listed = if sort == PaginationSort::Descending {
            passing.reverse()
        } else {
            passing
        };
        let mut works: Vec<PixivBookmarkPageBodyWork> = Vec::new();
        let cap: usize = cap_limit(limit) as usize;
        if offset >= at.len() as u64 {
            assert(works.deep_view() =~= Seq::<WorkView>::empty());
            return works;
        }
        let first = offset as usize;
        let n: usize = if cap >= at.len() - first {
            at.len() - first
        } else {
            cap
        };
        let mut i: usize = 0;
        while i < n
            invariant
                i <= n,
                first + n <= at.len(),
                at.len() == passing.len(),
                listed.len() == passing.len(),
                listed == if sort == PaginationSort::Descending {
                    passing.reverse()
                } else {
                    passing
                },
                forall|k: int|
                    0 <= k < at.len() ==> (#[trigger] at[k]) < self.collection.len()
                        && self@.works[at[k] as int] == passing[k],
                works.len() == i,
                forall|k: int| 0 <= k < i ==> works[k]@ == listed[first + k],
            decreases n - i,
        {
            let k = first + i;
            let index = match sort {
                PaginationSort::Descending => at[at.len() - 1 - k],
                PaginationSort::Ascending => at[k],
            };
            works.push(self.collection[index].clone());
            i += 1;
        }
        assert(works.deep_view() =~= slice_of(listed, offset as nat, capped(limit)));
        works
    }

    /// The date of the work taken in last, if there is one and it is dated.
    pub fn newest_date(&self) -> (date: Option<i64>)
        ensures
            date == newest_date(self@.works),
    {
        let n = self.collection.len();
        if n > 0 {
            self.collection[n - 1].sync_date
        } else {
            None
        }
    }

    /// Takes a page of works in at the time `now`. The page comes newest
    /// first and is taken in oldest first: the works are dated in that order,
    /// from `now` or from just after the newest mirrored work, whichever is
    /// later; their tags are kept in lower case, and each work counts one
    /// reference for each tag that it lists, however often it lists it. A
    /// work whose id is already mirrored is left out and reported as
    /// `DuplicateId`; the others are taken in all the same. Where a date or
    /// a count cannot be given, nothing is changed.
    pub fn insert_many_at(&mut self, bookmarks: Vec<PixivBookmarkPageBodyWork>, now: i64) -> (done:
        Result<(), StoreError>)
        ensures
            final(self)@ == taken_in(old(self)@, bookmarks.deep_view(), now),
            done == verdict(old(self)@, bookmarks.deep_view(), now),
            done is Ok ==> final(self)@.works == old(self)@.works + prepared(
                bookmarks.deep_view(),
                next_stamp(old(self)@.works, now),
            ),
    {
        let mut rest = bookmarks;
        let n = rest.len();
        let ghost batch = bookmarks.deep_view().reverse();
        let ghost start = self@;
        if n == 0 {
            assert(start.works + prepared(bookmarks.deep_view(), next_stamp(start.works, now))
                =~= start.works);
            return Ok(());
        }
        let base: i64 = match first_stamp(self.newest_date(), now) {
            Some(base) => base,
            None => {
                return Err(StoreError::ClockExhausted);
            },
        };
        if base as i128 + n as i128 - 1 > i64::MAX as i128 {
            return Err(StoreError::ClockExhausted);
        }
        let saved = self.tags.clone();
        let kept = self.collection.len();
        let mut skipped = false;
        let mut i: usize = 0;
        assert(batch.take(0) =~= Seq::<WorkView>::empty());
        while i < n
            invariant
                n == batch.len(),
                i <= n,
                batch == bookmarks.deep_view().reverse(),
                rest.len() == n - i,
                rest.deep_view() == bookmarks.deep_view().take(n - i),
                self@ == absorbed(start, batch.take(i as int), base as int),
                absorbable(start, batch.take(i as int), base as int),
                skipped <==> self@.works.len() < start.works.len() + i,
                saved@ == start.tags,
                kept == start.works.len(),
                base + n - 1 <= i64::MAX,
                start == old(self)@,
                base == next_stamp(start.works, now),
            decreases n - i,
        {
            let ghost before = self@;
            let ghost part = batch.take(i + 1);
            proof {
                assert(part.drop_last() =~= batch.take(i as int));
                assert(part.last() == batch[i as int]);
                assert(rest.deep_view()[n - i - 1] == bookmarks.deep_view()[n - i - 1]);
                lemma_absorbed_extends(start, batch.take(i as int), base as int);
            }
            let mut work = rest.pop().unwrap();
            assert(work@ == batch[i as int]);
            assert(rest.deep_view() =~= bookmarks.deep_view().take(n - (i + 1)));
            let at = self.locate(&work.id);
            if at < self.collection.len() {
                skipped = true;
            } else {
                let folded = lowercase_all(&work.tags);
                let once = distinct_texts(&folded);
                if !count_all(&mut self.tags, &once) {
                    self.tags = saved;
                    self.collection.truncate(kept);
                    proof {
                        assert(self@.works =~= start.works);
                        if absorbable(start, batch, base as int) {
                            lemma_absorbable_prefix(start, batch, base as int, i + 1);
                        }
                    }
                    return Err(StoreError::CounterOverflow);
                }
                work.tags = folded;
                let stamp: i128 = base as i128 + i as i128;
                work.sync_date = Some(stamp as i64);
                self.collection.push(work);
                assert(self@.works =~= before.works.push(stored(batch[i as int], base + i)));
            }
            i += 1;
        }
        proof {
            assert(batch.take(n as int) =~= batch);
            lemma_absorbed_extends(start, batch, base as int);
            if !skipped {
                lemma_absorbed_full(start, batch, base as int);
                assert(dated_from(batch, base as int) =~= prepared(
                    bookmarks.deep_view(),
                    base as int,
                ));
            }
        }
        if skipped {
            Err(StoreError::DuplicateId)
        } else {
            Ok(())
        }
    }

    /// Takes a page of works in at the present time, as `insert_many_at`
    /// does at a given one: so whatever time the clock gives, the mirror is
    /// the old one with the page offered to it at that time. An empty page
    /// is taken in without a look at the clock. Where the clock cannot be
    /// read, the page is refused as `ClockExhausted` and nothing is changed.
    pub fn insert_many(&mut self, bookmarks: Vec<PixivBookmarkPageBodyWork>) -> (done: Result<
        (),
        StoreError,
    >)
        ensures
            (exists|now: i64|
                final(self)@ == taken_in(old(self)@, bookmarks.deep_view(), now) && done == verdict(
                    old(self)@,
                    bookmarks.deep_view(),
                    now,
                )) || (done == Err::<(), StoreError>(StoreError::ClockExhausted) && final(self)@
                == old(self)@),
            bookmarks.len() == 0 ==> done is Ok && final(self)@ == old(self)@,
    {
        if bookmarks.len() == 0 {
            return self.insert_many_at(bookmarks, 0);
        }
        match now_micros() {
            Some(now) => self.insert_many_at(bookmarks, now),
            None => Err(StoreError::ClockExhausted),
        }
    }

    /// Removes the work with the id, and one reference for each tag that it
    /// lists: a tag whose count would reach zero loses its record.
    pub fn delete(&mut self, id: &String)
        ensures
            final(self)@ == expelled(old(self)@, id@),
    {
        let at = self.locate(id);
        if at < self.collection.len() {
            let work = self.collection.remove(at);
            let once = distinct_texts(&work.tags);
            let ghost tags = once.deep_view();
            let mut i: usize = 0;
            while i < once.len()
                invariant
                    i <= once.len(),
                    tags == once.deep_view(),
                    self.tags@ == untally(old(self).tags@, tags.take(i as int)),
                    self@.works == old(self)@.works.remove(at as int),
                decreases once.len() - i,
            {
                self.tags.release_exact(&once[i]);
                i += 1;
                assert(tags.take(i as int).drop_last() =~= tags.take(i - 1));
            }
            assert(tags.take(i as int) =~= tags);
        }
    }
}

} // verus!
