//! Readable labels for tag records: the names that the upstream gives to a
//! tag and to the tags related to it, and a romanization where it gives
//! none.

use crate::mongodb::bookmark_tags::{known, position, renamed, BookmarkTags};
use crate::mongodb::{BookmarkTag, TagView};
use crate::pixiv::tags::{
    PixivTags, PixivTagsBodyTagTranslationEntry, PixivTagsBodyTagTranslationWrapper, TagsView,
};
use crate::text::{lowercase, lowercase_of, snake, snake_of};
use vstd::prelude::*;

verus! {

/// Whether a text is Japanese.
#[derive(Debug, PartialEq, Eq, Structural, Clone, Copy)]
pub enum Japanese {
    /// It holds no Japanese character.
    No,
    /// It holds ideographs and no kana: it may as well be Chinese.
    Maybe,
    /// It holds kana.
    Yes,
}

/// Whether the character is a hiragana or a katakana.
pub open spec fn is_kana(c: char) -> bool {
    (0x3041 <= c as u32 <= 0x3096) || (0x30A1 <= c as u32 <= 0x30FA)
}

/// Whether the character is one of the unified ideographs.
pub open spec fn is_kanji(c: char) -> bool {
    0x4E00 <= c as u32 <= 0x9FAF
}

/// Whether a text is Japanese: it is where it holds a kana, it may be where
/// it holds an ideograph and no kana, and else it is not.
pub open spec fn japanese_of(text: Seq<char>) -> Japanese {
    if exists|i: int| 0 <= i < text.len() && is_kana(#[trigger] text[i]) {
        Japanese::Yes
    } else if exists|i: int| 0 <= i < text.len() && is_kanji(#[trigger] text[i]) {
        Japanese::Maybe
    } else {
        Japanese::No
    }
}

/// What `kakasi::convert` gives as the romanization of a text.
pub uninterp spec fn romaji_of(text: Seq<char>) -> Seq<char>;

/// `kakasi::is_japanese`: whether the text is Japanese. The function looks
/// at each character: a character from U+3041 to U+3096 or from U+30A1 to
/// U+30FA decides for yes; else one from U+4E00 to U+9FAF decides for
/// maybe.
#[verifier::external_body]
fn is_japanese(text: &str) -> (verdict: Japanese)
    ensures
        verdict == japanese_of(text@),
{
    match kakasi::is_japanese(text) {
        kakasi::IsJapanese::True => Japanese::Yes,
        kakasi::IsJapanese::Maybe => Japanese::Maybe,
        kakasi::IsJapanese::False => Japanese::No,
    }
}

/// `kakasi::convert`: the romanization of a text, a function of the text
/// alone.
#[verifier::external_body]
fn romanize(text: &str) -> (romaji: String)
    ensures
        romaji@ == romaji_of(text@),
{
    kakasi::convert(text).romaji
}

/// A label to set: the tag, and the name that it gets.
pub struct Rename {
    pub tag: String,
    pub name: String,
}

impl View for Rename {
    type V = (Seq<char>, Seq<char>);

    open spec fn view(&self) -> (Seq<char>, Seq<char>) {
        (self.tag@, self.name@)
    }
}

impl DeepView for Rename {
    type V = (Seq<char>, Seq<char>);

    open spec fn deep_view(&self) -> (Seq<char>, Seq<char>) {
        self@
    }
}

/// The labels of the related tags: each gets its English name, the words
/// of it held together by underscores.
pub open spec fn successor_renames(successors: Seq<(Seq<char>, Seq<char>)>) -> Seq<
    (Seq<char>, Seq<char>),
> {
    Seq::new(successors.len(), |i: int| (successors[i].0, snake_of(successors[i].1)))
}

/// Whether the tag is among the related tags, whatever its case there.
pub open spec fn listed(id: Seq<char>, successors: Seq<(Seq<char>, Seq<char>)>) -> bool {
    exists|i: int| 0 <= i < successors.len() && lowercase_of((#[trigger] successors[i]).0) == id
}

/// The romanization that the table gives for the tag: that of the first
/// entry whose tag is the tag in lower case.
pub open spec fn first_translation(id: Seq<char>, entries: Seq<(Seq<char>, Seq<char>)>) -> Option<
    Seq<char>,
>
    decreases entries.len(),
{
    if entries.len() == 0 {
        None
    } else if lowercase_of(entries[0].0) == id {
        Some(entries[0].1)
    } else {
        first_translation(id, entries.drop_first())
    }
}

/// The label of the tag itself: its romanization from the table; else,
/// where there is a table and the tag is Japanese, its romanization by
/// rule, the words of it held together by underscores; else the tag.
pub open spec fn own_name(id: Seq<char>, translations: Option<Seq<(Seq<char>, Seq<char>)>>) -> Seq<
    char,
> {
    match translations {
        None => id,
        Some(entries) => match first_translation(id, entries) {
            Some(romaji) => romaji,
            None => if japanese_of(id) == Japanese::Yes {
                snake_of(romaji_of(id))
            } else {
                id
            },
        },
    }
}

/// The labels to set after a search for the tag: those of the related
/// tags, and that of the tag itself unless it is one of them.
pub open spec fn renames_of(id: Seq<char>, found: TagsView) -> Seq<(Seq<char>, Seq<char>)> {
    if listed(id, found.successors) {
        successor_renames(found.successors)
    } else {
        successor_renames(found.successors).push((id, own_name(id, found.translations)))
    }
}

/// The romanization that the table gives for the tag.
fn table_romaji(id: &String, entries: &Vec<PixivTagsBodyTagTranslationEntry>) -> (romaji: Option<
    String,
>)
    ensures
        romaji.deep_view() == first_translation(id@, entries.deep_view()),
{
    let ghost all = entries.deep_view();
    let mut i: usize = 0;
    assert(all.skip(0) =~= all);
    while i < entries.len()
        invariant
            i <= entries.len(),
            all == entries.deep_view(),
            first_translation(id@, all) == first_translation(id@, all.skip(i as int)),
        decreases entries.len() - i,
    {
        assert(all.skip(i as int).drop_first() =~= all.skip(i + 1));
        assert(all.skip(i as int)[0] == all[i as int]);
        if lowercase(entries[i].tag.as_str()) == *id {
            return Some(entries[i].translation.romaji.clone());
        }
        i += 1;
    }
    None
}

/// The label of the tag itself.
fn own_label(id: &String, found: &PixivTags) -> (name: String)
    ensures
        name@ == own_name(id@, found@.translations),
{
    match &found.body.tag_translation {
        PixivTagsBodyTagTranslationWrapper::HashMap(entries) => {
            match table_romaji(id, entries) {
                Some(romaji) => romaji,
                None => {
                    if is_japanese(id.as_str()) == Japanese::Yes {
                        let romaji = romanize(id.as_str());
                        snake(romaji.as_str())
                    } else {
                        id.clone()
                    }
                },
            }
        },
        PixivTagsBodyTagTranslationWrapper::Vec => id.clone(),
    }
}

/// The labels to set after a search for the tag `id`, which is in lower
/// case: those of the related tags, in order, and then that of the tag
/// itself unless it is one of them.
pub fn translations(id: &String, found: &PixivTags) -> (renames: Vec<Rename>)
    ensures
        renames.deep_view() == renames_of(id@, found@),
{
    let successors = &found.body.breadcrumbs.successor;
    let mut renames: Vec<Rename> = Vec::new();
    let mut seen = false;
    let mut i: usize = 0;
    while i < successors.len()
        invariant
            i <= successors.len(),
            successors.deep_view() == found@.successors,
            renames.len() == i,
            forall|k: int|
                0 <= k < i ==> (#[trigger] renames[k])@ == (
                    found@.successors[k].0,
                    snake_of(found@.successors[k].1),
                ),
            seen == exists|k: int|
                0 <= k < i && lowercase_of((#[trigger] found@.successors[k]).0) == id@,
        decreases successors.len() - i,
    {
        let successor = &successors[i];
        assert(successor@ == found@.successors[i as int]);
        if lowercase(successor.tag.as_str()) == *id {
            seen = true;
        }
        renames.push(
            Rename { tag: successor.tag.clone(), name: snake(successor.translation.en.as_str()) },
        );
        i += 1;
    }
    assert(renames.deep_view() =~= successor_renames(found@.successors));
    if !seen {
        let ghost before = renames.deep_view();
        let name = own_label(id, found);
        renames.push(Rename { tag: id.clone(), name });
        assert(renames.deep_view() =~= before.push((id@, own_name(id@, found@.translations))));
    }
    renames
}

/// Whether the tag is to be looked up upstream: it has a record, and the
/// record has no label.
pub open spec fn unlabelled(records: Seq<TagView>, id: Seq<char>) -> bool {
    known(records, id) && records[position(records, id)].name is None
}

/// Whether the record of a tag is there and has no label.
pub fn lacks_label(record: &Option<BookmarkTag>) -> (yes: bool)
    ensures
        yes == (record is Some && record->0@.name is None),
{
    match record {
        Some(record) => record.name.is_none(),
        None => false,
    }
}

/// The id of the tag where it is to be looked up upstream: the tag in lower
/// case, if it has a record without a label.
pub fn needs_translation(tags: &BookmarkTags, tag: &str) -> (id: Option<String>)
    ensures
        id is Some <==> unlabelled(tags@, lowercase_of(tag@)),
        id is Some ==> id->0@ == lowercase_of(tag@),
{
    let id = lowercase(tag);
    if lacks_label(&tags.get_exact(&id)) {
        Some(id)
    } else {
        None
    }
}

/// The records after the labels were set, in order: each tag and each name
/// is taken in lower case.
pub open spec fn relabelled(records: Seq<TagView>, renames: Seq<(Seq<char>, Seq<char>)>) -> Seq<
    TagView,
>
    decreases renames.len(),
{
    if renames.len() == 0 {
        records
    } else {
        renamed(
            relabelled(records, renames.drop_last()),
            lowercase_of(renames.last().0),
            lowercase_of(renames.last().1),
        )
    }
}

/// Sets the labels, in order.
pub fn apply_renames(tags: &mut BookmarkTags, renames: &Vec<Rename>)
    ensures
        final(tags)@ == relabelled(old(tags)@, renames.deep_view()),
{
    let ghost all = renames.deep_view();
    let mut i: usize = 0;
    assert(all.take(0) =~= Seq::<(Seq<char>, Seq<char>)>::empty());
    while i < renames.len()
        invariant
            i <= renames.len(),
            all == renames.deep_view(),
            tags@ == relabelled(old(tags)@, all.take(i as int)),
        decreases renames.len() - i,
    {
        assert(all.take(i + 1).drop_last() =~= all.take(i as int));
        assert(all.take(i + 1).last() == all[i as int]);
        tags.set_name(renames[i].tag.as_str(), renames[i].name.as_str());
        i += 1;
    }
    assert(all.take(i as int) =~= all);
}

/// The records after one tag was looked after: where it has a record
/// without a label and the search for it was answered, the labels of the
/// answer are set; else nothing is changed.
pub open spec fn translated(records: Seq<TagView>, tag: Seq<char>, found: Option<TagsView>) -> Seq<
    TagView,
> {
    if unlabelled(records, lowercase_of(tag)) && found is Some {
        relabelled(records, renames_of(lowercase_of(tag), found->0))
    } else {
        records
    }
}

/// Looks after the label of one tag, given what the search for it came to:
/// `None` where the search failed or was not made.
pub fn sync_bookmark_tag_translation(tags: &mut BookmarkTags, tag: &str, found: Option<&PixivTags>)
    ensures
        final(tags)@ == translated(old(tags)@, tag@, found.deep_view()),
{
    if let Some(id) = needs_translation(tags, tag) {
        if let Some(found) = found {
            let renames = translations(&id, found);
            apply_renames(tags, &renames);
        }
    }
}

/// The answer on record for the search of the tag at an index: none where
/// the search failed or the record ends before it.
pub open spec fn search_of(searches: Seq<Option<TagsView>>, at: int) -> Option<TagsView> {
    if 0 <= at < searches.len() {
        searches[at]
    } else {
        None
    }
}

/// The records after the first `count` tags were looked after, in order.
pub open spec fn translated_all(
    records: Seq<TagView>,
    tags: Seq<Seq<char>>,
    searches: Seq<Option<TagsView>>,
    count: int,
) -> Seq<TagView>
    decreases count,
{
    if count <= 0 {
        records
    } else {
        translated(
            translated_all(records, tags, searches, count - 1),
            tags[count - 1],
            search_of(searches, count - 1),
        )
    }
}

/// Looks after the labels of the tags, in order, with every search answered
/// from the record: the answer for the tag at an index is the entry at that
/// index. A tag is only looked after where it has a record without a label
/// by then; a search that failed leaves the tag as it is.
pub fn sync_bookmark_tag_translations(
    records: &mut BookmarkTags,
    tags: &Vec<String>,
    searches: &Vec<Option<PixivTags>>,
)
    ensures
        final(records)@ == translated_all(
            old(records)@,
            tags.deep_view(),
            searches.deep_view(),
            tags.len() as int,
        ),
{
    let mut i: usize = 0;
    while i < tags.len()
        invariant
            i <= tags.len(),
            records@ == translated_all(
                old(records)@,
                tags.deep_view(),
                searches.deep_view(),
                i as int,
            ),
        decreases tags.len() - i,
    {
        let found = if i < searches.len() {
            searches[i].as_ref()
        } else {
            None
        };
        assert(found.deep_view() == search_of(searches.deep_view(), i as int));
        sync_bookmark_tag_translation(records, tags[i].as_str(), found);
        i += 1;
    }
}

} // verus!
