//! Tag records in the order of their counts, the highest first.

use crate::mongodb::{BookmarkTag, TagView};
use vstd::prelude::*;

verus! {

/// Where a record with the count `total` goes among ranked records: behind
/// the last one whose count is not below it.
pub open spec fn slot(ranked: Seq<TagView>, total: u64) -> int
    decreases ranked.len(),
{
    if ranked.len() == 0 || ranked.last().total >= total {
        ranked.len() as int
    } else {
        slot(ranked.drop_last(), total)
    }
}

/// The records by falling count; records of one count stay in their order.
pub open spec fn ranked(records: Seq<TagView>) -> Seq<TagView>
    decreases records.len(),
{
    if records.len() == 0 {
        records
    } else {
        let before = ranked(records.drop_last());
        before.insert(slot(before, records.last().total), records.last())
    }
}

/// Whether the counts never rise along the records.
pub open spec fn falling(records: Seq<TagView>) -> bool {
    forall|i: int, j: int| 0 <= i <= j < records.len() ==> records[i].total >= records[j].total
}

/// The slot lies within the records, behind no smaller count and before no
/// count that is not smaller.
pub proof fn lemma_slot(ranked: Seq<TagView>, total: u64)
    ensures
        0 <= slot(ranked, total) <= ranked.len(),
        forall|i: int| slot(ranked, total) <= i < ranked.len() ==> ranked[i].total < total,
        slot(ranked, total) > 0 ==> ranked[slot(ranked, total) - 1].total >= total,
    decreases ranked.len(),
{
    if ranked.len() > 0 && ranked.last().total < total {
        let rest = ranked.drop_last();
        lemma_slot(rest, total);
        assert forall|i: int| slot(ranked, total) <= i < ranked.len() implies ranked[i].total
            < total by {
            if i < rest.len() {
                assert(rest[i].total < total);
            }
        }
        if slot(ranked, total) > 0 {
            assert(ranked[slot(ranked, total) - 1] == rest[slot(rest, total) - 1]);
        }
    }
}

/// Ranked records are the same records, each as often as before, and their
/// counts never rise.
pub proof fn lemma_ranked(records: Seq<TagView>)
    ensures
        ranked(records).len() == records.len(),
        ranked(records).to_multiset() == records.to_multiset(),
        falling(ranked(records)),
    decreases records.len(),
{
    broadcast use vstd::seq_lib::group_to_multiset_ensures;

    if records.len() > 0 {
        let rest = records.drop_last();
        let last = records.last();
        lemma_ranked(rest);
        let before = ranked(rest);
        lemma_slot(before, last.total);
        let at = slot(before, last.total);
        let after = before.insert(at, last);
        assert(after.remove(at) =~= before);
        assert(after[at] == last);
        assert(before.to_multiset() =~= after.to_multiset().remove(last));
        assert(after.to_multiset().count(last) > 0);
        assert(after.to_multiset() =~= before.to_multiset().insert(last));
        assert(records =~= rest.push(last));
        assert(records.to_multiset() =~= rest.to_multiset().insert(last));
        assert forall|i: int, j: int| 0 <= i <= j < after.len() implies after[i].total
            >= after[j].total by {
            if at > 0 {
                assert(before[at - 1].total >= last.total);
            }
            if i < at && j > at {
                assert(before[i].total >= before[j - 1].total);
            } else if i < at && j < at {
                assert(before[i].total >= before[j].total);
            } else if i > at {
                assert(before[i - 1].total >= before[j - 1].total);
            } else if i < at && j == at {
                assert(before[i].total >= before[at - 1].total);
            }
        }
    }
}

/// Where a record with the count goes among ranked records.
fn slot_of(ranked: &Vec<BookmarkTag>, total: u64) -> (at: usize)
    ensures
        at == slot(ranked.deep_view(), total),
        at <= ranked.len(),
{
    let ghost all = ranked.deep_view();
    let mut at: usize = ranked.len();
    assert(all.take(at as int) =~= all);
    while at > 0 && ranked[at - 1].total < total
        invariant
            at <= ranked.len(),
            all == ranked.deep_view(),
            slot(all, total) == slot(all.take(at as int), total),
        decreases at,
    {
        assert(all.take(at as int).drop_last() =~= all.take(at - 1));
        at -= 1;
    }
    at
}

/// The records by falling count; records of one count stay in their order.
pub fn rank(records: Vec<BookmarkTag>) -> (sorted: Vec<BookmarkTag>)
    ensures
        sorted.deep_view() == ranked(records.deep_view()),
        falling(sorted.deep_view()),
        sorted.deep_view().to_multiset() == records.deep_view().to_multiset(),
{
    let ghost all = records.deep_view();
    let mut sorted: Vec<BookmarkTag> = Vec::new();
    let mut i: usize = 0;
    assert(all.take(0) =~= Seq::<TagView>::empty());
    while i < records.len()
        invariant
            i <= records.len(),
            all == records.deep_view(),
            sorted.deep_view() == ranked(all.take(i as int)),
        decreases records.len() - i,
    {
        let ghost before = sorted.deep_view();
        assert(all.take(i + 1).drop_last() =~= all.take(i as int));
        let at = slot_of(&sorted, records[i].total);
        sorted.insert(at, records[i].clone());
        assert(sorted.deep_view() =~= before.insert(at as int, all[i as int]));
        i += 1;
    }
    proof {
        assert(all.take(i as int) =~= all);
        lemma_ranked(all);
    }
    sorted
}

} // verus!
