//! The tag filter: a query of up to five terms, each resolved to the tags
//! that satisfy it. A work passes the filter where every term is satisfied
//! by one of its tags.

use crate::config::{mapped, mapping_of, TagMapping};
use crate::mongodb::bookmark_tags::{first_n, named, BookmarkTags, TAG_SEARCH_LIMIT};
use crate::mongodb::bookmarks::{admitted, found};
use crate::mongodb::ranking::ranked;
use crate::mongodb::{BookmarkTag, MongoDB, TagView};
use crate::pixiv::PixivBookmarkPageBody;
use crate::routes::Response;
use crate::text::{
    escape, escaped, has_text, lowercase, lowercase_all, lowercase_each, lowercase_of,
    split_whitespace, words_of,
};
use vstd::prelude::*;
use vstd::string::StringExecFns;

verus! {

/// The most terms of a query that count; what follows them is not read.
pub const MAX_FILTER_TERMS: usize = 5;

/// The order in which works are listed.
#[derive(Debug, PartialEq, Eq, Structural, Clone, Copy)]
pub enum PaginationSort {
    /// Oldest in the mirror first.
    Ascending,
    /// Newest in the mirror first.
    Descending,
}

/// A read query for works.
pub struct Pagination {
    pub tags: String,
    pub offset: u64,
    pub limit: i64,
    pub sort: PaginationSort,
}

impl Pagination {
    /// The limit of a query that names none.
    pub fn default_limit() -> (limit: i64)
        ensures
            limit == 30,
    {
        30
    }

    /// The order of a query that names none.
    pub fn default_sort() -> (sort: PaginationSort)
        ensures
            sort == PaginationSort::Descending,
    {
        PaginationSort::Descending
    }
}

/// A tag filter: one group of targets for each term of the query.
pub struct TagFilter {
    pub groups: Vec<Vec<String>>,
}

impl View for TagFilter {
    type V = Seq<Seq<Seq<char>>>;

    open spec fn view(&self) -> Seq<Seq<Seq<char>>> {
        self.groups.deep_view()
    }
}

impl DeepView for TagFilter {
    type V = Seq<Seq<Seq<char>>>;

    open spec fn deep_view(&self) -> Seq<Seq<Seq<char>>> {
        self@
    }
}

/// Whether one of the tags, read in lower case, is one of the targets.
pub open spec fn group_admits(targets: Seq<Seq<char>>, tags: Seq<Seq<char>>) -> bool {
    exists|i: int| 0 <= i < targets.len() && lowercase_each(tags).contains(#[trigger] targets[i])
}

/// Whether the tags satisfy every group. No group at all is satisfied by
/// every work.
pub open spec fn admits(groups: Seq<Seq<Seq<char>>>, tags: Seq<Seq<char>>) -> bool {
    forall|g: int| 0 <= g < groups.len() ==> group_admits(#[trigger] groups[g], tags)
}

/// The terms of a query: its words in lower case, the first five of them.
pub open spec fn terms_of(query: Seq<char>) -> Seq<Seq<char>> {
    first_n(words_of(lowercase_of(query)), MAX_FILTER_TERMS as nat)
}

/// The ids of the records other than the term itself, in order.
pub open spec fn other_ids(term: Seq<char>, records: Seq<TagView>) -> Seq<Seq<char>>
    decreases records.len(),
{
    if records.len() == 0 {
        Seq::empty()
    } else if records.last().id == term {
        other_ids(term, records.drop_last())
    } else {
        other_ids(term, records.drop_last()).push(records.last().id)
    }
}

/// The targets of a term that is no alias: the term itself, then the ids of
/// the records that were found under it.
pub open spec fn record_targets_of(term: Seq<char>, records: Seq<TagView>) -> Seq<Seq<char>> {
    seq![term] + other_ids(term, records)
}

/// The targets of a term. An alias stands for its upstream tags in lower
/// case and for nothing else, also where a tag record has the term as its id
/// or label. Any other term stands for itself and for the ids of the records
/// that have it as their id or label: of all of them up to fifty, and of the
/// fifty with the highest counts where they are more.
pub open spec fn targets_of(
    term: Seq<char>,
    mappings: Seq<(Seq<char>, Seq<Seq<char>>)>,
    records: Seq<TagView>,
) -> Seq<Seq<char>> {
    match mapped(mappings, term) {
        Some(literals) => lowercase_each(literals),
        None => record_targets_of(
            term,
            first_n(ranked(named(records, term)), TAG_SEARCH_LIMIT as nat),
        ),
    }
}

/// The groups of the filter that a query resolves to: one for each term.
pub open spec fn filter_of(
    query: Seq<char>,
    mappings: Seq<(Seq<char>, Seq<Seq<char>>)>,
    records: Seq<TagView>,
) -> Seq<Seq<Seq<char>>> {
    Seq::new(
        terms_of(query).len(),
        |i: int| targets_of(terms_of(query)[i], mappings, records),
    )
}

/// A query of two terms, the first an alias and the second a term that is
/// no alias and that no tag record has as its id or label, resolves to two
/// groups: the upstream tags of the alias in lower case, and the second term
/// alone.
pub proof fn law_alias_and_plain_term(
    query: Seq<char>,
    mappings: Seq<(Seq<char>, Seq<Seq<char>>)>,
    records: Seq<TagView>,
    alias: Seq<char>,
    literals: Seq<Seq<char>>,
    plain: Seq<char>,
)
    requires
        terms_of(query) == seq![alias, plain],
        mapped(mappings, alias) == Some(literals),
        mapped(mappings, plain) is None,
        named(records, plain).len() == 0,
    ensures
        filter_of(query, mappings, records) == seq![lowercase_each(literals), seq![plain]],
{
    let found = first_n(ranked(named(records, plain)), TAG_SEARCH_LIMIT as nat);
    assert(found.len() == 0);
    assert(record_targets_of(plain, found) =~= seq![plain]);
    assert(filter_of(query, mappings, records) =~= seq![lowercase_each(literals), seq![plain]]);
}

/// The query whose terms are `nsfw` and `cat`, with `nsfw` an alias of the
/// upstream tags `R-18` and `R-18G` and no tag record named `cat`, asks for
/// a tag among the two upstream tags in lower case and for the tag `cat`.
pub proof fn law_alias_example(query: Seq<char>, records: Seq<TagView>)
    requires
        terms_of(query) == seq!["nsfw"@, "cat"@],
        named(records, "cat"@).len() == 0,
    ensures
        filter_of(query, seq![("nsfw"@, seq!["R-18"@, "R-18G"@])], records) == seq![
            lowercase_each(seq!["R-18"@, "R-18G"@]),
            seq!["cat"@],
        ],
{
    reveal_strlit("nsfw");
    reveal_strlit("cat");
    let mappings = seq![("nsfw"@, seq!["R-18"@, "R-18G"@])];
    assert(mappings.drop_last() =~= Seq::<(Seq<char>, Seq<Seq<char>>)>::empty());
    assert("nsfw"@.len() != "cat"@.len());
    assert(mapped(mappings.drop_last(), "cat"@) is None);
    law_alias_and_plain_term(query, mappings, records, "nsfw"@, seq!["R-18"@, "R-18G"@], "cat"@);
}

/// The terms of a query: its words in lower case, the first five of them.
pub fn parse_terms(query: &str) -> (terms: Vec<String>)
    ensures
        terms.deep_view() == terms_of(query@),
{
    let folded = lowercase(query);
    let mut terms = split_whitespace(folded.as_str());
    terms.truncate(MAX_FILTER_TERMS);
    assert(terms.deep_view() =~= terms_of(query@));
    terms
}

/// The targets of an alias: its upstream tags in lower case.
pub fn alias_targets(mapping: &TagMapping) -> (targets: Vec<String>)
    ensures
        targets.deep_view() == lowercase_each(mapping@.1),
{
    lowercase_all(&mapping.pixiv_tags)
}

/// The targets of a term that is no alias, from the records that the tag
/// counter found under it: the term itself, then their ids.
pub fn record_targets(term: &String, records: &Vec<BookmarkTag>) -> (targets: Vec<String>)
    ensures
        targets.deep_view() == record_targets_of(term@, records.deep_view()),
{
    let ghost all = records.deep_view();
    let mut targets: Vec<String> = Vec::new();
    targets.push(term.clone());
    let mut i: usize = 0;
    assert(all.take(0) =~= Seq::<TagView>::empty());
    assert(targets.deep_view() =~= seq![term@] + other_ids(term@, all.take(0)));
    while i < records.len()
        invariant
            i <= records.len(),
            all == records.deep_view(),
            targets.deep_view() == seq![term@] + other_ids(term@, all.take(i as int)),
        decreases records.len() - i,
    {
        let ghost before = targets.deep_view();
        assert(all.take(i + 1).drop_last() =~= all.take(i as int));
        if records[i].id != *term {
            targets.push(records[i].id.clone());
            assert(targets.deep_view() =~= before.push(all[i as int].id));
            assert(targets.deep_view() =~= seq![term@] + other_ids(term@, all.take(i + 1)));
        }
        i += 1;
    }
    assert(all.take(i as int) =~= all);
    targets
}

/// The targets of a term, resolved against the aliases and the tag records.
pub fn resolve_term(term: &String, mappings: &Vec<TagMapping>, tags: &BookmarkTags) -> (targets:
    Vec<String>)
    ensures
        targets.deep_view() == targets_of(term@, mappings.deep_view(), tags@),
{
    match mapping_of(mappings, term) {
        Some(mapping) => alias_targets(mapping),
        None => {
            let records = tags.resolve_from_name_or_id(term.as_str());
            record_targets(term, &records)
        },
    }
}

/// The filter of these groups, or none where there is no group: then every
/// work passes.
pub fn filter_from(groups: Vec<Vec<String>>) -> (filter: Option<TagFilter>)
    ensures
        filter is Some <==> groups.len() > 0,
        filter is Some ==> filter->0@ == groups.deep_view(),
{
    if groups.len() == 0 {
        None
    } else {
        Some(TagFilter { groups })
    }
}

/// The filter that a query resolves to, or none where the query holds no
/// term: then every work passes.
pub fn resolve_filter(query: &str, mappings: &Vec<TagMapping>, tags: &BookmarkTags) -> (filter:
    Option<TagFilter>)
    ensures
        filter is Some <==> terms_of(query@).len() > 0,
        filter is Some ==> filter->0@ == filter_of(query@, mappings.deep_view(), tags@),
{
    let terms = parse_terms(query);
    let mut groups: Vec<Vec<String>> = Vec::new();
    let mut i: usize = 0;
    while i < terms.len()
        invariant
            i <= terms.len(),
            terms.deep_view() == terms_of(query@),
            groups.len() == i,
            forall|j: int|
                0 <= j < i ==> (#[trigger] groups[j]).deep_view() == targets_of(
                    terms_of(query@)[j],
                    mappings.deep_view(),
                    tags@,
                ),
        decreases terms.len() - i,
    {
        let targets = resolve_term(&terms[i], mappings, tags);
        groups.push(targets);
        i += 1;
    }
    assert(groups.deep_view() =~= filter_of(query@, mappings.deep_view(), tags@));
    filter_from(groups)
}

/// The groups of the filter that a query asks for, or none where the query
/// holds no term.
pub open spec fn asked(
    query: Seq<char>,
    mappings: Seq<(Seq<char>, Seq<Seq<char>>)>,
    records: Seq<TagView>,
) -> Option<Seq<Seq<Seq<char>>>> {
    if terms_of(query).len() > 0 {
        Some(filter_of(query, mappings, records))
    } else {
        None
    }
}

/// Answers a read query for works: the works that pass the filter of the
/// query, in the order and range asked for, with the number of all works
/// that pass it.
pub fn handler(query: &Pagination, mongodb: &MongoDB, mappings: &Vec<TagMapping>) -> (response:
    Response<PixivBookmarkPageBody>)
    ensures
        response is Data,
        ({
            let filter = asked(query.tags@, mappings.deep_view(), mongodb@.tags);
            &&& response->Data_0@.works == found(
                mongodb@.works,
                filter,
                query.offset,
                query.limit,
                query.sort,
            )
            &&& response->Data_0@.total == admitted(mongodb@.works, filter).len()
        }),
{
    let filter = resolve_filter(query.tags.as_str(), mappings, &mongodb.bookmarks.tags);
    let total = mongodb.bookmarks.count(&filter);
    let works = mongodb.bookmarks.find(&filter, query.offset, query.limit, query.sort);
    Response::Data(PixivBookmarkPageBody { works, total })
}

/// One pattern of a store-level predicate: a regular expression and its
/// options.
pub struct Pattern {
    pub pattern: String,
    pub options: String,
}

impl View for Pattern {
    type V = (Seq<char>, Seq<char>);

    open spec fn view(&self) -> (Seq<char>, Seq<char>) {
        (self.pattern@, self.options@)
    }
}

impl DeepView for Pattern {
    type V = (Seq<char>, Seq<char>);

    open spec fn deep_view(&self) -> (Seq<char>, Seq<char>) {
        self@
    }
}

/// The pattern that matches a tag equal to the target, whatever its case:
/// the target as a literal between the two anchors, with the option `i`.
pub open spec fn pattern_of(target: Seq<char>) -> (Seq<char>, Seq<char>) {
    ("^"@ + escaped(target) + "$"@, "i"@)
}

/// The pattern that matches a tag equal to the target, whatever its case.
pub fn target_pattern(target: &String) -> (pattern: Pattern)
    ensures
        pattern@ == pattern_of(target@),
{
    let mut text = String::from_str("^");
    let quoted = escape(target.as_str());
    text.append(quoted.as_str());
    text.append("$");
    Pattern { pattern: text, options: String::from_str("i") }
}

/// Whether one of the targets is one of the texts.
fn any_of(targets: &Vec<String>, texts: &Vec<String>) -> (hit: bool)
    ensures
        hit == exists|i: int|
            0 <= i < targets.len() && texts.deep_view().contains(#[trigger] targets.deep_view()[i]),
{
    let mut t: usize = 0;
    while t < targets.len()
        invariant
            t <= targets.len(),
            forall|k: int|
                0 <= k < t ==> !texts.deep_view().contains(#[trigger] targets.deep_view()[k]),
        decreases targets.len() - t,
    {
        if has_text(texts, &targets[t]) {
            assert(texts.deep_view().contains(targets.deep_view()[t as int]));
            return true;
        }
        t += 1;
    }
    false
}

impl TagFilter {
    /// Whether a work with these tags passes the filter.
    pub fn admits(&self, tags: &Vec<String>) -> (passes: bool)
        ensures
            passes == admits(self@, tags.deep_view()),
    {
        let folded = lowercase_all(tags);
        let mut g: usize = 0;
        while g < self.groups.len()
            invariant
                g <= self.groups.len(),
                folded.deep_view() == lowercase_each(tags.deep_view()),
                forall|k: int| 0 <= k < g ==> group_admits(#[trigger] self@[k], tags.deep_view()),
            decreases self.groups.len() - g,
        {
            assert(self.groups[g as int].deep_view() == self@[g as int]);
            if !any_of(&self.groups[g], &folded) {
                return false;
            }
            g += 1;
        }
        true
    }

    /// The filter as a store-level predicate: for each group the patterns of
    /// its targets. A work passes where each group has a pattern that one of
    /// its tags matches.
    pub fn patterns(&self) -> (patterns: Vec<Vec<Pattern>>)
        ensures
            patterns.len() == self@.len(),
            forall|g: int|
                0 <= g < self@.len() ==> (#[trigger] patterns[g]).len() == self@[g].len(),
            forall|g: int, t: int|
                0 <= g < self@.len() && 0 <= t < self@[g].len() ==> (#[trigger] patterns[g][t])@
                    == pattern_of(self@[g][t]),
    {
        let mut patterns: Vec<Vec<Pattern>> = Vec::new();
        let mut g: usize = 0;
        while g < self.groups.len()
            invariant
                g <= self.groups.len(),
                patterns.len() == g,
                forall|k: int| 0 <= k < g ==> (#[trigger] patterns[k]).len() == self@[k].len(),
                forall|k: int, t: int|
                    0 <= k < g && 0 <= t < self@[k].len() ==> (#[trigger] patterns[k][t])@
                        == pattern_of(self@[k][t]),
            decreases self.groups.len() - g,
        {
            let group = &self.groups[g];
            let mut row: Vec<Pattern> = Vec::new();
            let mut t: usize = 0;
            while t < group.len()
                invariant
                    t <= group.len(),
                    group.deep_view() == self@[g as int],
                    row.len() == t,
                    forall|k: int| 0 <= k < t ==> (#[trigger] row[k])@ == pattern_of(
                        self@[g as int][k],
                    ),
                decreases group.len() - t,
            {
                assert(group.deep_view()[t as int] == group[t as int]@);
                row.push(target_pattern(&group[t]));
                t += 1;
            }
            patterns.push(row);
            g += 1;
        }
        patterns
    }
}

} // verus!
