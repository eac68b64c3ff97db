//! The tag vocabulary of the mirror, as a read query is answered with it.

use crate::mongodb::bookmark_tags::{first_n, meant, TAG_SEARCH_LIMIT};
use crate::mongodb::bookmarks::lemma_admitted_all;
use crate::mongodb::ranking::ranked;
use crate::mongodb::{BookmarkTag, MongoDB, TagView};
use crate::routes::Response;
use crate::text::{lowercase_of, words_of};
use vstd::prelude::*;
use vstd::string::StringExecFns;

verus! {

/// A read query for tags.
pub struct TagQuery {
    pub query: String,
}

/// The record that stands for all works: its count is the number of
/// mirrored works.
pub open spec fn all_works_record(count: nat) -> TagView {
    TagView { id: "すべて"@, name: Some("all"@), total: count as u64 }
}

/// The record that stands for all works, for this number of them.
pub fn all_works(total: u64) -> (record: BookmarkTag)
    ensures
        record@ == all_works_record(total as nat),
{
    BookmarkTag { id: String::from_str("すべて"), name: Some(String::from_str("all")), total }
}

/// Answers a read query for tags: the record that stands for all works,
/// then the records that the query means, by falling count.
pub fn handler(query: &TagQuery, mongodb: &MongoDB) -> (response: Response<Vec<BookmarkTag>>)
    ensures
        response is Data,
        response->Data_0.deep_view() == seq![all_works_record(mongodb@.works.len())] + first_n(
            ranked(meant(mongodb@.tags, words_of(lowercase_of(query.query@)))),
            TAG_SEARCH_LIMIT as nat,
        ),
{
    let mut records = mongodb.bookmarks.tags.find(query.query.as_str());
    let ghost found = records.deep_view();
    let total = mongodb.bookmarks.count(&None);
    proof {
        lemma_admitted_all(mongodb@.works);
    }
    records.insert(0, all_works(total));
    assert(records.deep_view() =~= seq![all_works_record(mongodb@.works.len())] + found);
    Response::Data(records)
}

} // verus!
