//! The tag reference counter: one record per tag in use.

use crate::mongodb::ranking::{rank, ranked};
use crate::mongodb::{BookmarkTag, StoreError, TagView};
use crate::text::{
    contains_text, escape, escaped, lowercase, lowercase_of, occurs_in, split_whitespace, words_of,
};
use vstd::prelude::*;

verus! {

/// The index of the first record with the id, or the number of records where
/// none has it.
pub open spec fn position(records: Seq<TagView>, id: Seq<char>) -> int
    decreases records.len(),
{
    if records.len() == 0 {
        0
    } else if records[0].id == id {
        0
    } else {
        1 + position(records.drop_first(), id)
    }
}

/// Whether some record has the id.
pub open spec fn known(records: Seq<TagView>, id: Seq<char>) -> bool {
    position(records, id) < records.len()
}

/// The count that the records hold for the id: 0 where no record has it.
pub open spec fn total_of(records: Seq<TagView>, id: Seq<char>) -> nat {
    if known(records, id) {
        records[position(records, id)].total as nat
    } else {
        0
    }
}

/// The records after one more reference to the id: its count is one higher,
/// and a tag that had no record has one with the count 1.
pub open spec fn bumped(records: Seq<TagView>, id: Seq<char>) -> Seq<TagView> {
    let at = position(records, id);
    if known(records, id) {
        records.update(at, TagView { total: (records[at].total + 1) as u64, ..records[at] })
    } else {
        records.push(TagView { id, name: None, total: 1 })
    }
}

/// The records after one reference to the id has gone: its count is one
/// lower, and the record is gone where the count would reach zero.
pub open spec fn released(records: Seq<TagView>, id: Seq<char>) -> Seq<TagView> {
    let at = position(records, id);
    if !known(records, id) {
        records
    } else if records[at].total <= 1 {
        records.remove(at)
    } else {
        records.update(at, TagView { total: (records[at].total - 1) as u64, ..records[at] })
    }
}

/// The records after the count of the id was lowered by one in place.
pub open spec fn lowered(records: Seq<TagView>, id: Seq<char>) -> Seq<TagView> {
    let at = position(records, id);
    if known(records, id) && records[at].total > 0 {
        records.update(at, TagView { total: (records[at].total - 1) as u64, ..records[at] })
    } else {
        records
    }
}

/// The records with the label of the id set.
pub open spec fn renamed(records: Seq<TagView>, id: Seq<char>, name: Seq<char>) -> Seq<TagView> {
    let at = position(records, id);
    if known(records, id) {
        records.update(at, TagView { name: Some(name), ..records[at] })
    } else {
        records
    }
}

/// The records without the first one that has the id.
pub open spec fn dropped(records: Seq<TagView>, id: Seq<char>) -> Seq<TagView> {
    if known(records, id) {
        records.remove(position(records, id))
    } else {
        records
    }
}

/// The most records that a search gives.
pub const TAG_SEARCH_LIMIT: usize = 50;

/// The first `limit` of the items, or all of them where they are fewer.
pub open spec fn first_n<T>(items: Seq<T>, limit: nat) -> Seq<T> {
    if items.len() > limit {
        items.take(limit as int)
    } else {
        items
    }
}

/// Whether the record has the text as its id or as its label.
pub open spec fn is_named(record: TagView, text: Seq<char>) -> bool {
    record.id == text || record.name == Some(text)
}

/// The records that have the text as their id or as their label, in order.
pub open spec fn named(records: Seq<TagView>, text: Seq<char>) -> Seq<TagView>
    decreases records.len(),
{
    if records.len() == 0 {
        records
    } else if is_named(records.last(), text) {
        named(records.drop_last(), text).push(records.last())
    } else {
        named(records.drop_last(), text)
    }
}

/// Whether one of the terms stands in the id or in the label of the record.
/// Without terms every record is meant.
pub open spec fn is_meant(record: TagView, terms: Seq<Seq<char>>) -> bool {
    terms.len() == 0 || exists|i: int|
        0 <= i < terms.len() && #[trigger] mentions(record, terms[i])
}

/// Whether the term stands in the id or in the label of the record.
pub open spec fn mentions(record: TagView, term: Seq<char>) -> bool {
    occurs_in(term, record.id) || (record.name is Some && occurs_in(term, record.name->0))
}

/// The records that the terms mean, in order.
pub open spec fn meant(records: Seq<TagView>, terms: Seq<Seq<char>>) -> Seq<TagView>
    decreases records.len(),
{
    if records.len() == 0 {
        records
    } else if is_meant(records.last(), terms) {
        meant(records.drop_last(), terms).push(records.last())
    } else {
        meant(records.drop_last(), terms)
    }
}

/// One way in which a tag record can answer a search term.
pub enum TagCondition {
    /// The id is the text.
    IdIs(String),
    /// The label is the text.
    NameIs(String),
    /// The id matches the regular expression.
    IdLike(String),
    /// The label matches the regular expression.
    NameLike(String),
}

/// The mathematical value of a condition.
pub ghost enum TagConditionView {
    IdIs(Seq<char>),
    NameIs(Seq<char>),
    IdLike(Seq<char>),
    NameLike(Seq<char>),
}

impl View for TagCondition {
    type V = TagConditionView;

    open spec fn view(&self) -> TagConditionView {
        match self {
            TagCondition::IdIs(text) => TagConditionView::IdIs(text@),
            TagCondition::NameIs(text) => TagConditionView::NameIs(text@),
            TagCondition::IdLike(text) => TagConditionView::IdLike(text@),
            TagCondition::NameLike(text) => TagConditionView::NameLike(text@),
        }
    }
}

impl DeepView for TagCondition {
    type V = TagConditionView;

    open spec fn deep_view(&self) -> TagConditionView {
        self@
    }
}

/// The conditions of a search, four for each term: the id or the label is
/// the term, or matches the term taken as a literal.
pub open spec fn conditions_of(terms: Seq<Seq<char>>) -> Seq<TagConditionView>
    decreases terms.len(),
{
    if terms.len() == 0 {
        Seq::empty()
    } else {
        conditions_of(terms.drop_last()).push(TagConditionView::IdIs(terms.last())).push(
            TagConditionView::NameIs(terms.last()),
        ).push(TagConditionView::IdLike(escaped(terms.last()))).push(
            TagConditionView::NameLike(escaped(terms.last())),
        )
    }
}

/// The conditions that a document store is asked with for a search: a record
/// answers the search where it meets one of them, and every record does
/// where there is none.
pub fn search_conditions(query: &str) -> (conditions: Vec<TagCondition>)
    ensures
        conditions.deep_view() == conditions_of(words_of(lowercase_of(query@))),
{
    let folded = lowercase(query);
    let terms = split_whitespace(folded.as_str());
    let ghost all = terms.deep_view();
    let mut conditions: Vec<TagCondition> = Vec::new();
    let mut i: usize = 0;
    assert(all.take(0) =~= Seq::<Seq<char>>::empty());
    assert(conditions.deep_view() =~= Seq::<TagConditionView>::empty());
    while i < terms.len()
        invariant
            i <= terms.len(),
            all == terms.deep_view(),
            conditions.deep_view() == conditions_of(all.take(i as int)),
        decreases terms.len() - i,
    {
        let ghost before = conditions.deep_view();
        assert(all.take(i + 1).drop_last() =~= all.take(i as int));
        let pattern = escape(terms[i].as_str());
        conditions.push(TagCondition::IdIs(terms[i].clone()));
        conditions.push(TagCondition::NameIs(terms[i].clone()));
        conditions.push(TagCondition::IdLike(pattern.clone()));
        conditions.push(TagCondition::NameLike(pattern));
        assert(conditions.deep_view() =~= before.push(TagConditionView::IdIs(all[i as int])).push(
            TagConditionView::NameIs(all[i as int]),
        ).push(TagConditionView::IdLike(escaped(all[i as int]))).push(
            TagConditionView::NameLike(escaped(all[i as int])),
        ));
        i += 1;
    }
    assert(all.take(i as int) =~= all);
    conditions
}

/// Whether the term stands in the id or in the label of the record.
fn record_mentions(record: &BookmarkTag, term: &String) -> (found: bool)
    ensures
        found == mentions(record@, term@),
{
    if contains_text(record.id.as_str(), term.as_str()) {
        return true;
    }
    match &record.name {
        Some(name) => contains_text(name.as_str(), term.as_str()),
        None => false,
    }
}

/// Whether one of the terms stands in the id or in the label of the record.
fn record_is_meant(record: &BookmarkTag, terms: &Vec<String>) -> (found: bool)
    ensures
        found == is_meant(record@, terms.deep_view()),
{
    if terms.len() == 0 {
        return true;
    }
    let mut i: usize = 0;
    while i < terms.len()
        invariant
            i <= terms.len(),
            forall|j: int| 0 <= j < i ==> !mentions(record@, #[trigger] terms.deep_view()[j]),
        decreases terms.len() - i,
    {
        if record_mentions(record, &terms[i]) {
            assert(mentions(record@, terms.deep_view()[i as int]));
            return true;
        }
        i += 1;
    }
    false
}

/// What becomes of a tag record when one reference to the tag goes.
#[derive(Debug, PartialEq, Eq, Structural, Clone, Copy)]
pub enum Release {
    /// The record goes: no reference is left.
    Delete,
    /// The count is lowered by one.
    Decrement,
}

/// What becomes of a record with this count when one reference goes.
pub fn release_of(total: u64) -> (release: Release)
    ensures
        release == if total <= 1 {
            Release::Delete
        } else {
            Release::Decrement
        },
{
    if total <= 1 {
        Release::Delete
    } else {
        Release::Decrement
    }
}

/// `position` is the least index at which the id stands.
pub proof fn lemma_position(records: Seq<TagView>, id: Seq<char>)
    ensures
        0 <= position(records, id) <= records.len(),
        forall|j: int| 0 <= j < position(records, id) ==> records[j].id != id,
        known(records, id) ==> records[position(records, id)].id == id,
    decreases records.len(),
{
    if records.len() > 0 && records[0].id != id {
        let rest = records.drop_first();
        lemma_position(rest, id);
        assert forall|j: int| 0 <= j < position(records, id) implies records[j].id != id by {
            if j > 0 {
                assert(records[j] == rest[j - 1]);
            }
        }
        if known(records, id) {
            assert(records[position(records, id)] == rest[position(rest, id)]);
        }
    }
}

/// An index before which the id does not stand, and at which it stands or
/// the records end, is its position.
pub proof fn lemma_position_is(records: Seq<TagView>, id: Seq<char>, at: int)
    requires
        0 <= at <= records.len(),
        forall|j: int| 0 <= j < at ==> records[j].id != id,
        at < records.len() ==> records[at].id == id,
    ensures
        position(records, id) == at,
{
    lemma_position(records, id);
}

/// The tag records of a mirror.
pub struct BookmarkTags {
    collection: Vec<BookmarkTag>,
}

impl View for BookmarkTags {
    type V = Seq<TagView>;

    closed spec fn view(&self) -> Seq<TagView> {
        self.collection.deep_view()
    }
}

impl Clone for BookmarkTags {
    fn clone(&self) -> (copy: Self)
        ensures
            copy@ == self@,
    {
        let mut collection: Vec<BookmarkTag> = Vec::new();
        let mut i: usize = 0;
        while i < self.collection.len()
            invariant
                i <= self.collection.len(),
                collection.len() == i,
                forall|j: int| 0 <= j < i ==> collection[j]@ == self.collection[j]@,
            decreases self.collection.len() - i,
        {
            collection.push(self.collection[i].clone());
            i += 1;
        }
        assert(collection.deep_view() =~= self.collection.deep_view());
        Self { collection }
    }
}

impl BookmarkTags {
    /// A counter over the records given.
    pub fn new(collection: Vec<BookmarkTag>) -> (tags: Self)
        ensures
            tags@ == collection.deep_view(),
    {
        Self { collection }
    }

    /// Where the record of `id` stands.
    fn locate(&self, id: &String) -> (at: usize)
        ensures
            at == position(self@, id@),
            at <= self.collection.len(),
    {
        let mut at: usize = 0;
        while at < self.collection.len()
            invariant
                at <= self.collection.len(),
                forall|j: int| 0 <= j < at ==> self@[j].id != id@,
            decreases self.collection.len() - at,
        {
            if self.collection[at].id == *id {
                proof {
                    lemma_position_is(self@, id@, at as int);
                }
                return at;
            }
            at += 1;
        }
        proof {
            lemma_position_is(self@, id@, at as int);
        }
        at
    }

    /// The record of a tag whose id is given as it is stored.
    pub fn get_exact(&self, id: &String) -> (found: Option<BookmarkTag>)
        ensures
            found is Some <==> known(self@, id@),
            found is Some ==> found->0@ == self@[position(self@, id@)],
    {
        let at = self.locate(id);
        if at < self.collection.len() {
            Some(self.collection[at].clone())
        } else {
            None
        }
    }

    /// The record of the tag, looked up under its lower-case form.
    pub fn get(&self, id: &str) -> (found: Option<BookmarkTag>)
        ensures
            found is Some <==> known(self@, lowercase_of(id@)),
            found is Some ==> found->0@ == self@[position(self@, lowercase_of(id@))],
    {
        let id = lowercase(id);
        self.get_exact(&id)
    }

    /// The records whose id or label is the text, by falling count, at most
    /// fifty of them.
    pub fn resolve_from_name_or_id(&self, name_or_id: &str) -> (found: Vec<BookmarkTag>)
        ensures
            found.deep_view() == first_n(
                ranked(named(self@, name_or_id@)),
                TAG_SEARCH_LIMIT as nat,
            ),
    {
        let ghost all = self@;
        let wanted = name_or_id.to_owned();
        let mut picked: Vec<BookmarkTag> = Vec::new();
        let mut i: usize = 0;
        assert(all.take(0) =~= Seq::<TagView>::empty());
        while i < self.collection.len()
            invariant
                i <= self.collection.len(),
                all == self@,
                wanted@ == name_or_id@,
                picked.deep_view() == named(all.take(i as int), name_or_id@),
            decreases self.collection.len() - i,
        {
            let ghost before = picked.deep_view();
            assert(all.take(i + 1).drop_last() =~= all.take(i as int));
            let record = &self.collection[i];
            let by_name = match &record.name {
                Some(name) => *name == wanted,
                None => false,
            };
            if record.id == wanted || by_name {
                picked.push(record.clone());
                assert(picked.deep_view() =~= before.push(all[i as int]));
            }
            i += 1;
        }
        assert(all.take(i as int) =~= all);
        let mut found = rank(picked);
        found.truncate(TAG_SEARCH_LIMIT);
        assert(found.deep_view() =~= first_n(
            ranked(named(self@, name_or_id@)),
            TAG_SEARCH_LIMIT as nat,
        ));
        found
    }

    /// The records that a search means, by falling count, at most fifty of
    /// them. The query is read in lower case as a list of terms; a record is
    /// meant where one of the terms stands in its id or in its label, and
    /// every record is meant where the query holds no term.
    pub fn find(&self, query: &str) -> (found: Vec<BookmarkTag>)
        ensures
            found.deep_view() == first_n(
                ranked(meant(self@, words_of(lowercase_of(query@)))),
                TAG_SEARCH_LIMIT as nat,
            ),
    {
        let folded = lowercase(query);
        let terms = split_whitespace(folded.as_str());
        let ghost all = self@;
        let mut picked: Vec<BookmarkTag> = Vec::new();
        let mut i: usize = 0;
        assert(all.take(0) =~= Seq::<TagView>::empty());
        while i < self.collection.len()
            invariant
                i <= self.collection.len(),
                all == self@,
                picked.deep_view() == meant(all.take(i as int), terms.deep_view()),
            decreases self.collection.len() - i,
        {
            let ghost before = picked.deep_view();
            assert(all.take(i + 1).drop_last() =~= all.take(i as int));
            if record_is_meant(&self.collection[i], &terms) {
                picked.push(self.collection[i].clone());
                assert(picked.deep_view() =~= before.push(all[i as int]));
            }
            i += 1;
        }
        assert(all.take(i as int) =~= all);
        let mut found = rank(picked);
        found.truncate(TAG_SEARCH_LIMIT);
        assert(found.deep_view() =~= first_n(
            ranked(meant(self@, words_of(lowercase_of(query@)))),
            TAG_SEARCH_LIMIT as nat,
        ));
        found
    }

    /// One more reference to a tag whose id is given as it is stored.
    pub fn increment_exact(&mut self, id: String) -> (done: Result<(), StoreError>)
        ensures
            done is Ok <==> total_of(old(self)@, id@) < u64::MAX,
            done is Ok ==> final(self)@ == bumped(old(self)@, id@),
            done is Err ==> done == Err::<(), StoreError>(StoreError::CounterOverflow)
                && final(self)@ == old(self)@,
    {
        let at = self.locate(&id);
        if at < self.collection.len() {
            let total = self.collection[at].total;
            if total == u64::MAX {
                return Err(StoreError::CounterOverflow);
            }
            let record = BookmarkTag {
                id: self.collection[at].id.clone(),
                name: self.collection[at].name.clone(),
                total: total + 1,
            };
            self.collection.set(at, record);
            assert(self@ =~= bumped(old(self)@, id@));
        } else {
            self.collection.push(BookmarkTag { id, name: None, total: 1 });
            assert(self@ =~= bumped(old(self)@, id@));
        }
        Ok(())
    }

    /// One more reference to the tag: its record is made with the count 1
    /// where there was none. Refused, with nothing changed, where the count
    /// cannot grow.
    pub fn increment(&mut self, id: &str) -> (done: Result<(), StoreError>)
        ensures
            done is Ok <==> total_of(old(self)@, lowercase_of(id@)) < u64::MAX,
            done is Ok ==> final(self)@ == bumped(old(self)@, lowercase_of(id@)),
            done is Err ==> done == Err::<(), StoreError>(StoreError::CounterOverflow)
                && final(self)@ == old(self)@,
    {
        let id = lowercase(id);
        self.increment_exact(id)
    }

    /// Lowers the count of the tag by one where it has a record with a count
    /// above zero. The record stays, also at zero: to remove it is the
    /// caller's part.
    pub fn decrement(&mut self, id: &str)
        ensures
            final(self)@ == lowered(old(self)@, lowercase_of(id@)),
    {
        let id = lowercase(id);
        let at = self.locate(&id);
        if at < self.collection.len() {
            let total = self.collection[at].total;
            if total > 0 {
                let record = BookmarkTag {
                    id: self.collection[at].id.clone(),
                    name: self.collection[at].name.clone(),
                    total: total - 1,
                };
                self.collection.set(at, record);
            }
        }
        assert(self@ =~= lowered(old(self)@, id@));
    }

    /// One reference to a tag has gone, the id given as it is stored: the
    /// count is lowered, and the record removed where it would reach zero.
    pub fn release_exact(&mut self, id: &String)
        ensures
            final(self)@ == released(old(self)@, id@),
    {
        let at = self.locate(id);
        if at < self.collection.len() {
            let total = self.collection[at].total;
            match release_of(total) {
                Release::Delete => {
                    self.collection.remove(at);
                },
                Release::Decrement => {
                    let record = BookmarkTag {
                        id: self.collection[at].id.clone(),
                        name: self.collection[at].name.clone(),
                        total: total - 1,
                    };
                    self.collection.set(at, record);
                },
            }
        }
        assert(self@ =~= released(old(self)@, id@));
    }

    /// Sets the label of the tag, both taken in lower case, where the tag has
    /// a record.
    pub fn set_name(&mut self, id: &str, name: &str)
        ensures
            final(self)@ == renamed(old(self)@, lowercase_of(id@), lowercase_of(name@)),
    {
        let id = lowercase(id);
        let name = lowercase(name);
        let at = self.locate(&id);
        if at < self.collection.len() {
            let record = BookmarkTag {
                id: self.collection[at].id.clone(),
                name: Some(name),
                total: self.collection[at].total,
            };
            self.collection.set(at, record);
        }
        assert(self@ =~= renamed(old(self)@, id@, name@));
    }

    /// Removes the record of the tag.
    pub fn delete(&mut self, id: &str)
        ensures
            final(self)@ == dropped(old(self)@, lowercase_of(id@)),
    {
        let id = lowercase(id);
        let at = self.locate(&id);
        if at < self.collection.len() {
            self.collection.remove(at);
        }
        assert(self@ =~= dropped(old(self)@, id@));
    }
}

} // verus!
