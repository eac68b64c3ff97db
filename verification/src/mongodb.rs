//! The mirror: the mirrored works in the order in which they were taken in,
//! and the reference count of every tag that they carry.

pub mod bookmark_tags;
pub mod bookmarks;
pub mod counting;
pub mod plan;
pub mod ranking;

use crate::mongodb::bookmark_tags::BookmarkTags;
use crate::mongodb::bookmarks::{Bookmarks, MirrorView};
use crate::mongodb::counting::empty_mirror;
use vstd::prelude::*;

verus! {

/// The mirror as the engine and the read side see it.
pub struct MongoDB {
    pub bookmarks: Bookmarks,
}

impl View for MongoDB {
    type V = MirrorView;

    open spec fn view(&self) -> MirrorView {
        self.bookmarks@
    }
}

impl MongoDB {
    /// An empty mirror.
    pub fn new() -> (mirror: Self)
        ensures
            mirror@ == empty_mirror(),
    {
        let mirror = MongoDB { bookmarks: Bookmarks::new(Vec::new(), BookmarkTags::new(Vec::new())) };
        assert(mirror@.works =~= empty_mirror().works);
        assert(mirror@.tags =~= empty_mirror().tags);
        mirror
    }
}

/// One tag with the number of mirrored works that refer to it.
pub struct BookmarkTag {
    /// The tag in lower case.
    pub id: String,
    /// A readable label, where one was set.
    pub name: Option<String>,
    pub total: u64,
}

/// The mathematical value of a tag record.
pub ghost struct TagView {
    pub id: Seq<char>,
    pub name: Option<Seq<char>>,
    pub total: u64,
}

impl View for BookmarkTag {
    type V = TagView;

    open spec fn view(&self) -> TagView {
        TagView { id: self.id@, name: self.name.deep_view(), total: self.total }
    }
}

impl DeepView for BookmarkTag {
    type V = TagView;

    open spec fn deep_view(&self) -> TagView {
        self@
    }
}

impl Clone for BookmarkTag {
    fn clone(&self) -> (copy: Self)
        ensures
            copy@ == self@,
    {
        BookmarkTag { id: self.id.clone(), name: self.name.clone(), total: self.total }
    }
}

/// Why the mirror refused a change.
#[derive(Debug, PartialEq, Eq, Structural, Clone, Copy)]
pub enum StoreError {
    /// A work with the same id is already mirrored.
    DuplicateId,
    /// A reference count is at the largest number it can hold.
    CounterOverflow,
    /// No later sync date can be given, or the clock cannot be read.
    ClockExhausted,
}

} // verus!
