//! The tag vocabulary as the upstream reports it.

use vstd::prelude::*;

verus! {

/// The upstream's answer to a request for the tag vocabulary.
pub struct PixivBookmarkTags {
    pub body: PixivUserTagsBody,
}

pub struct PixivUserTagsBody {
    pub public: Vec<PixivBookmarkTag>,
}

/// One tag of the vocabulary with the number of works that carry it upstream.
pub struct PixivBookmarkTag {
    pub tag: String,
    pub cnt: u32,
}

impl View for PixivBookmarkTag {
    type V = (Seq<char>, u32);

    open spec fn view(&self) -> (Seq<char>, u32) {
        (self.tag@, self.cnt)
    }
}

impl DeepView for PixivBookmarkTag {
    type V = (Seq<char>, u32);

    open spec fn deep_view(&self) -> (Seq<char>, u32) {
        self@
    }
}

} // verus!
