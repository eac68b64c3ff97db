//! The upstream's tag vocabulary, copied as it is reported.

use crate::pixiv::bookmark_tags::{PixivBookmarkTag, PixivBookmarkTags};
use vstd::prelude::*;

verus! {

/// One change to the stored vocabulary.
pub enum VocabularyAction {
    /// Remove every stored tag.
    DeleteAll,
    /// Store these tags.
    InsertMany(Vec<PixivBookmarkTag>),
}

/// The mathematical value of such a change.
pub ghost enum VocabularyActionView {
    DeleteAll,
    InsertMany(Seq<(Seq<char>, u32)>),
}

impl View for VocabularyAction {
    type V = VocabularyActionView;

    open spec fn view(&self) -> VocabularyActionView {
        match self {
            VocabularyAction::DeleteAll => VocabularyActionView::DeleteAll,
            VocabularyAction::InsertMany(tags) => VocabularyActionView::InsertMany(
                tags.deep_view(),
            ),
        }
    }
}

impl DeepView for VocabularyAction {
    type V = VocabularyActionView;

    open spec fn deep_view(&self) -> VocabularyActionView {
        self@
    }
}

/// What to do with the stored vocabulary after the upstream was asked for
/// its own: replace it, the old tags removed before the new ones are
/// stored, where the upstream answered, and leave it alone where the
/// request failed. The changes are to be made in order, and the later one
/// not at all where the earlier one fails.
pub fn vocabulary_plan(fetched: Option<PixivBookmarkTags>) -> (plan: Vec<VocabularyAction>)
    ensures
        match fetched {
            Some(tags) => plan.deep_view() == seq![
                VocabularyActionView::DeleteAll,
                VocabularyActionView::InsertMany(tags.body.public.deep_view()),
            ],
            None => plan.deep_view() == Seq::<VocabularyActionView>::empty(),
        },
{
    let mut plan: Vec<VocabularyAction> = Vec::new();
    match fetched {
        Some(tags) => {
            let ghost public = tags.body.public.deep_view();
            plan.push(VocabularyAction::DeleteAll);
            plan.push(VocabularyAction::InsertMany(tags.body.public));
            assert(plan.deep_view() =~= seq![
                VocabularyActionView::DeleteAll,
                VocabularyActionView::InsertMany(public),
            ]);
        },
        None => {
            assert(plan.deep_view() =~= Seq::<VocabularyActionView>::empty());
        },
    }
    plan
}

/// Brings a vocabulary held in memory up to the upstream's: it is replaced
/// by what the upstream answered, and stays where the request failed.
pub fn sync_bookmark_tags(vocabulary: &mut Vec<PixivBookmarkTag>, fetched: Option<PixivBookmarkTags>)
    ensures
        match fetched {
            Some(tags) => final(vocabulary).deep_view() == tags.body.public.deep_view(),
            None => final(vocabulary).deep_view() == old(vocabulary).deep_view(),
        },
{
    match fetched {
        Some(tags) => {
            *vocabulary = tags.body.public;
        },
        None => {},
    }
}

} // verus!
