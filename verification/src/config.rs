//! What the service is configured with: whose bookmarks to mirror, and the
//! aliases that a tag query may use.

use vstd::prelude::*;

verus! {

/// A text that is not to be shown: a session cookie, a connection string.
pub struct SensitiveString(pub String);

impl View for SensitiveString {
    type V = Seq<char>;

    open spec fn view(&self) -> Seq<char> {
        self.0@
    }
}

impl SensitiveString {
    /// The text itself, for the one who has to send it.
    pub fn expose(&self) -> (text: String)
        ensures
            text@ == self@,
    {
        self.0.clone()
    }

    /// What stands for the text wherever the configuration is shown.
    pub fn redacted(&self) -> (text: &'static str)
        ensures
            text@ == "<redacted>"@,
    {
        "<redacted>"
    }
}

/// An alias of a tag query: the term, and the upstream tags that it stands
/// for.
pub struct TagMapping {
    pub tag: String,
    pub pixiv_tags: Vec<String>,
}

impl View for TagMapping {
    type V = (Seq<char>, Seq<Seq<char>>);

    open spec fn view(&self) -> (Seq<char>, Seq<Seq<char>>) {
        (self.tag@, self.pixiv_tags.deep_view())
    }
}

impl Clone for TagMapping {
    fn clone(&self) -> (copy: Self)
        ensures
            copy@ == self@,
    {
        TagMapping { tag: self.tag.clone(), pixiv_tags: crate::text::clone_texts(&self.pixiv_tags) }
    }
}

impl DeepView for TagMapping {
    type V = (Seq<char>, Seq<Seq<char>>);

    open spec fn deep_view(&self) -> (Seq<char>, Seq<Seq<char>>) {
        self@
    }
}

/// The configuration.
pub struct Config {
    pub pixiv_user_id: u32,
    pub pixiv_phpsessid: SensitiveString,
    pub mongodb_uri: SensitiveString,
    /// The aliases in the order in which they were written. Where a term is
    /// written twice, the later entry counts.
    pub bookmark_tag_mappings: Vec<TagMapping>,
}

/// The upstream tags that the term stands for: those of the last mapping
/// that has the term.
pub open spec fn mapped(mappings: Seq<(Seq<char>, Seq<Seq<char>>)>, term: Seq<char>) -> Option<
    Seq<Seq<char>>,
>
    decreases mappings.len(),
{
    if mappings.len() == 0 {
        None
    } else if mappings.last().0 == term {
        Some(mappings.last().1)
    } else {
        mapped(mappings.drop_last(), term)
    }
}

/// The mapping of the term: the last one that has it.
pub fn mapping_of<'a>(mappings: &'a Vec<TagMapping>, term: &String) -> (found: Option<
    &'a TagMapping,
>)
    ensures
        found is Some <==> mapped(mappings.deep_view(), term@) is Some,
        found is Some ==> found->0@.0 == term@ && mapped(mappings.deep_view(), term@) == Some(
            found->0@.1,
        ),
{
    let ghost all = mappings.deep_view();
    let mut at: usize = mappings.len();
    assert(all.take(at as int) =~= all);
    while at > 0
        invariant
            at <= mappings.len(),
            all == mappings.deep_view(),
            mapped(all, term@) == mapped(all.take(at as int), term@),
        decreases at,
    {
        assert(all.take(at as int).drop_last() =~= all.take(at - 1));
        assert(all.take(at as int).last() == all[at - 1]);
        if mappings[at - 1].tag == *term {
            return Some(&mappings[at - 1]);
        }
        at -= 1;
    }
    None
}

/// Whether no two mappings have one term.
pub open spec fn terms_distinct(mappings: Seq<(Seq<char>, Seq<Seq<char>>)>) -> bool {
    forall|i: int, j: int| 0 <= i < j < mappings.len() ==> mappings[i].0 != mappings[j].0
}

/// The mappings with the last one that has the term of the entry replaced
/// by the entry.
pub open spec fn replaced(
    mappings: Seq<(Seq<char>, Seq<Seq<char>>)>,
    entry: (Seq<char>, Seq<Seq<char>>),
) -> Seq<(Seq<char>, Seq<Seq<char>>)>
    decreases mappings.len(),
{
    if mappings.len() == 0 {
        mappings
    } else if mappings.last().0 == entry.0 {
        mappings.drop_last().push(entry)
    } else {
        replaced(mappings.drop_last(), entry).push(mappings.last())
    }
}

/// The mappings with one more written down: it takes the place of the
/// mapping that had its term, or comes last where none had it.
pub open spec fn with_mapping(
    mappings: Seq<(Seq<char>, Seq<Seq<char>>)>,
    entry: (Seq<char>, Seq<Seq<char>>),
) -> Seq<(Seq<char>, Seq<Seq<char>>)> {
    if mapped(mappings, entry.0) is Some {
        replaced(mappings, entry)
    } else {
        mappings.push(entry)
    }
}

/// The mappings that a list of entries comes to when they are written down
/// one after the other.
pub open spec fn collected(entries: Seq<(Seq<char>, Seq<Seq<char>>)>) -> Seq<
    (Seq<char>, Seq<Seq<char>>),
>
    decreases entries.len(),
{
    if entries.len() == 0 {
        entries
    } else {
        with_mapping(collected(entries.drop_last()), entries.last())
    }
}

/// A term is mapped exactly where a mapping has it.
pub proof fn lemma_mapped(mappings: Seq<(Seq<char>, Seq<Seq<char>>)>, term: Seq<char>)
    ensures
        mapped(mappings, term) is Some <==> exists|i: int|
            0 <= i < mappings.len() && (#[trigger] mappings[i]).0 == term,
    decreases mappings.len(),
{
    if mappings.len() > 0 {
        let rest = mappings.drop_last();
        lemma_mapped(rest, term);
        if mappings.last().0 == term {
            assert(mappings[mappings.len() - 1].0 == term);
        } else if mapped(rest, term) is Some {
            let i = choose|i: int| 0 <= i < rest.len() && (#[trigger] rest[i]).0 == term;
            assert(mappings[i].0 == term);
        } else if exists|i: int| 0 <= i < mappings.len() && (#[trigger] mappings[i]).0 == term {
            let i = choose|i: int| 0 <= i < mappings.len() && (#[trigger] mappings[i]).0 == term;
            assert(rest[i].0 == term);
        }
    }
}

/// Replacing a mapping leaves the terms where they are.
pub proof fn lemma_replaced(
    mappings: Seq<(Seq<char>, Seq<Seq<char>>)>,
    entry: (Seq<char>, Seq<Seq<char>>),
    term: Seq<char>,
)
    ensures
        replaced(mappings, entry).len() == mappings.len(),
        forall|i: int|
            0 <= i < mappings.len() ==> (#[trigger] replaced(mappings, entry)[i]).0
                == mappings[i].0,
        mapped(replaced(mappings, entry), term) == if term == entry.0 && mapped(mappings, term)
            is Some {
            Some(entry.1)
        } else {
            mapped(mappings, term)
        },
    decreases mappings.len(),
{
    if mappings.len() > 0 {
        let rest = mappings.drop_last();
        let after = replaced(mappings, entry);
        if mappings.last().0 == entry.0 {
            assert(after.drop_last() =~= rest);
        } else {
            lemma_replaced(rest, entry, term);
            assert(after.drop_last() =~= replaced(rest, entry));
        }
    }
}

/// Writing a mapping down keeps the terms distinct, gives the term its new
/// tags and leaves every other term what it had.
pub proof fn lemma_with_mapping(
    mappings: Seq<(Seq<char>, Seq<Seq<char>>)>,
    entry: (Seq<char>, Seq<Seq<char>>),
    term: Seq<char>,
)
    requires
        terms_distinct(mappings),
    ensures
        terms_distinct(with_mapping(mappings, entry)),
        mapped(with_mapping(mappings, entry), term) == if term == entry.0 {
            Some(entry.1)
        } else {
            mapped(mappings, term)
        },
{
    let after = with_mapping(mappings, entry);
    lemma_mapped(mappings, entry.0);
    lemma_replaced(mappings, entry, term);
    if mapped(mappings, entry.0) is Some {
        assert forall|i: int, k: int| 0 <= i < k < after.len() implies after[i].0
            != after[k].0 by {
            assert(after[i].0 == mappings[i].0);
            assert(after[k].0 == mappings[k].0);
        }
    } else {
        assert(after.drop_last() =~= mappings);
        assert forall|i: int, k: int| 0 <= i < k < after.len() implies after[i].0
            != after[k].0 by {
            if k == after.len() - 1 {
                assert(mappings[i].0 != entry.0);
            }
        }
    }
}

/// The mappings collected from entries have distinct terms, and give every
/// term the tags of the last entry that has it.
pub proof fn lemma_collected(entries: Seq<(Seq<char>, Seq<Seq<char>>)>, term: Seq<char>)
    ensures
        terms_distinct(collected(entries)),
        mapped(collected(entries), term) == mapped(entries, term),
    decreases entries.len(),
{
    if entries.len() > 0 {
        lemma_collected(entries.drop_last(), term);
        lemma_with_mapping(collected(entries.drop_last()), entries.last(), term);
    }
}

/// The mappings that a list of entries comes to, each a term with its
/// upstream tags: an entry takes the place of an earlier one with the same
/// term, so that no term is mapped twice and the last entry of a term
/// counts.
pub fn collect_mappings(entries: &Vec<TagMapping>) -> (mappings: Vec<TagMapping>)
    ensures
        mappings.deep_view() == collected(entries.deep_view()),
        terms_distinct(mappings.deep_view()),
        forall|term: Seq<char>| #[trigger]
            mapped(mappings.deep_view(), term) == mapped(entries.deep_view(), term),
{
    let ghost all = entries.deep_view();
    let mut mappings: Vec<TagMapping> = Vec::new();
    let mut i: usize = 0;
    assert(all.take(0) =~= Seq::<(Seq<char>, Seq<Seq<char>>)>::empty());
    assert(mappings.deep_view() =~= Seq::<(Seq<char>, Seq<Seq<char>>)>::empty());
    while i < entries.len()
        invariant
            i <= entries.len(),
            all == entries.deep_view(),
            mappings.deep_view() == collected(all.take(i as int)),
        decreases entries.len() - i,
    {
        assert(all.take(i + 1).drop_last() =~= all.take(i as int));
        assert(all.take(i + 1).last() == all[i as int]);
        write_mapping(&mut mappings, entries[i].clone());
        i += 1;
    }
    proof {
        assert(all.take(i as int) =~= all);
        assert forall|term: Seq<char>| #[trigger]
            mapped(mappings.deep_view(), term) == mapped(all, term) by {
            lemma_collected(all, term);
        }
        lemma_collected(all, Seq::empty());
    }
    mappings
}

/// Writes one mapping down: in the place of the mapping that has its term,
/// or at the end.
fn write_mapping(mappings: &mut Vec<TagMapping>, entry: TagMapping)
    ensures
        final(mappings).deep_view() == with_mapping(old(mappings).deep_view(), entry@),
{
    let ghost all = mappings.deep_view();
    let mut at: usize = mappings.len();
    assert(all.take(at as int) =~= all);
    assert(replaced(all, entry@) + all.skip(at as int) =~= replaced(all, entry@));
    while at > 0 && mappings[at - 1].tag != entry.tag
        invariant
            at <= mappings.len(),
            all == mappings.deep_view(),
            mappings == old(mappings),
            replaced(all, entry@) == replaced(all.take(at as int), entry@) + all.skip(at as int),
            mapped(all, entry@.0) == mapped(all.take(at as int), entry@.0),
        decreases at,
    {
        proof {
            let part = all.take(at as int);
            assert(part.drop_last() =~= all.take(at - 1));
            assert(part.last() == all[at - 1]);
            assert(replaced(all.take(at - 1), entry@).push(all[at - 1]) + all.skip(at as int)
                =~= replaced(all.take(at - 1), entry@) + all.skip(at - 1));
        }
        at -= 1;
    }
    if at == 0 {
        let ghost before = mappings.deep_view();
        mappings.push(entry);
        assert(mappings.deep_view() =~= before.push(entry@));
    } else {
        proof {
            let part = all.take(at as int);
            assert(part.drop_last() =~= all.take(at - 1));
            assert(part.last() == all[at - 1]);
        }
        mappings.set(at - 1, entry);
        assert(mappings.deep_view() =~= all.take(at - 1).push(entry@) + all.skip(at as int));
    }
}

impl Config {
    /// The upstream tags that the term is an alias of.
    pub fn aliases_of(&self, term: &String) -> (found: Option<&TagMapping>)
        ensures
            found is Some <==> mapped(self.bookmark_tag_mappings.deep_view(), term@) is Some,
            found is Some ==> found->0@.0 == term@ && mapped(
                self.bookmark_tag_mappings.deep_view(),
                term@,
            ) == Some(found->0@.1),
    {
        mapping_of(&self.bookmark_tag_mappings, term)
    }
}

} // verus!
