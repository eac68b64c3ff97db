//! What the upstream says of one tag: its translations and the tags
//! related to it.

use vstd::prelude::*;

verus! {

/// The upstream's answer to a search for a tag.
pub struct PixivTags {
    pub body: PixivTagsBody,
}

pub struct PixivTagsBody {
    pub tag_translation: PixivTagsBodyTagTranslationWrapper,
    pub breadcrumbs: PixivTagsBodyBreadcrumbs,
}

/// The translations of the answer: a table from tag to translation, its
/// entries in the order in which they are to be tried, or nothing of use.
pub enum PixivTagsBodyTagTranslationWrapper {
    HashMap(Vec<PixivTagsBodyTagTranslationEntry>),
    Vec,
}

pub struct PixivTagsBodyTagTranslationEntry {
    pub tag: String,
    pub translation: PixivTagsBodyTagTranslation,
}

pub struct PixivTagsBodyTagTranslation {
    pub romaji: String,
}

pub struct PixivTagsBodyBreadcrumbs {
    pub successor: Vec<PixivTagsBodyBreadcrumbsSuccessor>,
}

/// A related tag with its translation.
pub struct PixivTagsBodyBreadcrumbsSuccessor {
    pub tag: String,
    pub translation: PixivTagsBodyBreadcrumbsSuccessorTranslation,
}

pub struct PixivTagsBodyBreadcrumbsSuccessorTranslation {
    pub en: String,
}

/// The mathematical value of a search answer: the related tags, each with
/// its English name, and the translation table, each tag with its
/// romanization, if there is a table.
pub ghost struct TagsView {
    pub successors: Seq<(Seq<char>, Seq<char>)>,
    pub translations: Option<Seq<(Seq<char>, Seq<char>)>>,
}

impl View for PixivTagsBodyBreadcrumbsSuccessor {
    type V = (Seq<char>, Seq<char>);

    open spec fn view(&self) -> (Seq<char>, Seq<char>) {
        (self.tag@, self.translation.en@)
    }
}

impl DeepView for PixivTagsBodyBreadcrumbsSuccessor {
    type V = (Seq<char>, Seq<char>);

    open spec fn deep_view(&self) -> (Seq<char>, Seq<char>) {
        self@
    }
}

impl View for PixivTagsBodyTagTranslationEntry {
    type V = (Seq<char>, Seq<char>);

    open spec fn view(&self) -> (Seq<char>, Seq<char>) {
        (self.tag@, self.translation.romaji@)
    }
}

impl DeepView for PixivTagsBodyTagTranslationEntry {
    type V = (Seq<char>, Seq<char>);

    open spec fn deep_view(&self) -> (Seq<char>, Seq<char>) {
        self@
    }
}

impl View for PixivTags {
    type V = TagsView;

    open spec fn view(&self) -> TagsView {
        TagsView {
            successors: self.body.breadcrumbs.successor.deep_view(),
            translations: match self.body.tag_translation {
                PixivTagsBodyTagTranslationWrapper::HashMap(entries) => Some(entries.deep_view()),
                PixivTagsBodyTagTranslationWrapper::Vec => None,
            },
        }
    }
}

impl DeepView for PixivTags {
    type V = TagsView;

    open spec fn deep_view(&self) -> TagsView {
        self@
    }
}

} // verus!
