//! What the upstream collection reports: pages of bookmarked works, newest
//! first, and the arithmetic of paging through them.

pub mod bookmark_tags;
pub mod tags;

use crate::text::clone_texts;
use vstd::prelude::*;

verus! {

/// The number of works on a full page; the upstream does not serve more.
pub const PIXIV_BOOKMARKS_PER_PAGE: i64 = 100;

/// One answer of the upstream to a page request.
pub struct PixivBookmarks {
    pub body: PixivBookmarkPageBody,
}

/// A page of works, newest first, with the size of the whole collection.
pub struct PixivBookmarkPageBody {
    pub works: Vec<PixivBookmarkPageBodyWork>,
    pub total: u64,
}

/// One bookmarked work. The mirror keys it by `id`, orders it by `sync_date`
/// and counts its `tags`; every other field is carried through as it came.
pub struct PixivBookmarkPageBodyWork {
    pub id: String,
    /// Microseconds since the Unix epoch at which the mirror took the work in;
    /// `None` until then.
    pub sync_date: Option<i64>,
    pub title: String,
    pub illust_type: u64,
    pub x_restrict: u64,
    pub restrict: u64,
    pub sl: u64,
    pub url: String,
    pub description: String,
    pub tags: Vec<String>,
    pub user_id: String,
    pub user_name: String,
    pub width: u64,
    pub height: u64,
    pub page_count: u64,
    pub is_bookmarkable: bool,
    pub bookmark_data: Option<PixivBookmarkPageBodyWorkBookmarkData>,
    pub alt: String,
    pub title_caption_translation: PixivBookmarkPageBodyWorkTitleCaptionTranslation,
    pub create_date: String,
    pub update_date: String,
    pub is_masked: bool,
    pub ai_type: u64,
    pub visibility_scope: u64,
}

pub struct PixivBookmarkPageBodyWorkBookmarkData {
    pub id: String,
    pub private: bool,
}

pub struct PixivBookmarkPageBodyWorkTitleCaptionTranslation {
    pub work_title: Option<String>,
    pub work_caption: Option<String>,
}

/// The mathematical value of a work.
pub ghost struct WorkView {
    pub id: Seq<char>,
    pub sync_date: Option<i64>,
    pub title: Seq<char>,
    pub illust_type: u64,
    pub x_restrict: u64,
    pub restrict: u64,
    pub sl: u64,
    pub url: Seq<char>,
    pub description: Seq<char>,
    pub tags: Seq<Seq<char>>,
    pub user_id: Seq<char>,
    pub user_name: Seq<char>,
    pub width: u64,
    pub height: u64,
    pub page_count: u64,
    pub is_bookmarkable: bool,
    pub bookmark_data: Option<(Seq<char>, bool)>,
    pub alt: Seq<char>,
    pub work_title: Option<Seq<char>>,
    pub work_caption: Option<Seq<char>>,
    pub create_date: Seq<char>,
    pub update_date: Seq<char>,
    pub is_masked: bool,
    pub ai_type: u64,
    pub visibility_scope: u64,
}

/// The mathematical value of a page.
pub ghost struct PageView {
    pub works: Seq<WorkView>,
    pub total: u64,
}

impl View for PixivBookmarkPageBodyWorkBookmarkData {
    type V = (Seq<char>, bool);

    open spec fn view(&self) -> (Seq<char>, bool) {
        (self.id@, self.private)
    }
}

impl DeepView for PixivBookmarkPageBodyWorkBookmarkData {
    type V = (Seq<char>, bool);

    open spec fn deep_view(&self) -> (Seq<char>, bool) {
        self@
    }
}

impl Clone for PixivBookmarkPageBodyWorkBookmarkData {
    fn clone(&self) -> (copy: Self)
        ensures
            copy@ == self@,
    {
        PixivBookmarkPageBodyWorkBookmarkData { id: self.id.clone(), private: self.private }
    }
}

impl View for PixivBookmarkPageBodyWorkTitleCaptionTranslation {
    type V = (Option<Seq<char>>, Option<Seq<char>>);

    open spec fn view(&self) -> (Option<Seq<char>>, Option<Seq<char>>) {
        (self.work_title.deep_view(), self.work_caption.deep_view())
    }
}

impl Clone for PixivBookmarkPageBodyWorkTitleCaptionTranslation {
    fn clone(&self) -> (copy: Self)
        ensures
            copy@ == self@,
    {
        PixivBookmarkPageBodyWorkTitleCaptionTranslation {
            work_title: self.work_title.clone(),
            work_caption: self.work_caption.clone(),
        }
    }
}

impl View for PixivBookmarkPageBodyWork {
    type V = WorkView;

    open spec fn view(&self) -> WorkView {
        WorkView {
            id: self.id@,
            sync_date: self.sync_date,
            title: self.title@,
            illust_type: self.illust_type,
            x_restrict: self.x_restrict,
            restrict: self.restrict,
            sl: self.sl,
            url: self.url@,
            description: self.description@,
            tags: self.tags.deep_view(),
            user_id: self.user_id@,
            user_name: self.user_name@,
            width: self.width,
            height: self.height,
            page_count: self.page_count,
            is_bookmarkable: self.is_bookmarkable,
            bookmark_data: self.bookmark_data.deep_view(),
            alt: self.alt@,
            work_title: self.title_caption_translation@.0,
            work_caption: self.title_caption_translation@.1,
            create_date: self.create_date@,
            update_date: self.update_date@,
            is_masked: self.is_masked,
            ai_type: self.ai_type,
            visibility_scope: self.visibility_scope,
        }
    }
}

impl DeepView for PixivBookmarkPageBodyWork {
    type V = WorkView;

    open spec fn deep_view(&self) -> WorkView {
        self@
    }
}

impl Clone for PixivBookmarkPageBodyWork {
    fn clone(&self) -> (copy: Self)
        ensures
            copy@ == self@,
    {
        PixivBookmarkPageBodyWork {
            id: self.id.clone(),
            sync_date: self.sync_date,
            title: self.title.clone(),
            illust_type: self.illust_type,
            x_restrict: self.x_restrict,
            restrict: self.restrict,
            sl: self.sl,
            url: self.url.clone(),
            description: self.description.clone(),
            tags: clone_texts(&self.tags),
            user_id: self.user_id.clone(),
            user_name: self.user_name.clone(),
            width: self.width,
            height: self.height,
            page_count: self.page_count,
            is_bookmarkable: self.is_bookmarkable,
            bookmark_data: self.bookmark_data.clone(),
            alt: self.alt.clone(),
            title_caption_translation: self.title_caption_translation.clone(),
            create_date: self.create_date.clone(),
            update_date: self.update_date.clone(),
            is_masked: self.is_masked,
            ai_type: self.ai_type,
            visibility_scope: self.visibility_scope,
        }
    }
}

/// Where a page begins in the upstream collection: page 1 at the newest
/// work, every further page a page's size on.
pub open spec fn offset_of(page: int) -> int {
    (page - 1) * PIXIV_BOOKMARKS_PER_PAGE
}

/// The page of a collection that is listed newest first: a page's size of
/// works from the page's offset on, or as many as are left, with the size
/// of the whole collection.
pub open spec fn page_of(upstream: Seq<WorkView>, page: int) -> PageView {
    let first = offset_of(page);
    PageView {
        works: if first >= upstream.len() {
            Seq::empty()
        } else if first + PIXIV_BOOKMARKS_PER_PAGE >= upstream.len() {
            upstream.skip(first)
        } else {
            upstream.subrange(first, first + PIXIV_BOOKMARKS_PER_PAGE)
        },
        total: upstream.len() as u64,
    }
}

/// The offset to ask the upstream with for a page, where the page has a
/// number from 1 on and the offset can be written down.
pub fn page_offset(page: i64) -> (offset: Option<i64>)
    ensures
        offset is Some <==> 1 <= page && offset_of(page as int) <= i64::MAX,
        offset is Some ==> offset->0 == offset_of(page as int),
{
    if page < 1 {
        return None;
    }
    (page - 1).checked_mul(PIXIV_BOOKMARKS_PER_PAGE)
}

impl PixivBookmarks {
    /// The page of an upstream collection held in memory, newest work
    /// first; none for a page number below 1 or an offset that cannot be
    /// written down, as the upstream answers neither.
    pub fn get_page(page: i64, upstream: &Vec<PixivBookmarkPageBodyWork>) -> (answer: Option<
        PixivBookmarks,
    >)
        ensures
            answer is Some <==> 1 <= page && offset_of(page as int) <= i64::MAX,
            answer is Some ==> answer->0@ == page_of(upstream.deep_view(), page as int),
    {
        let offset = match page_offset(page) {
            Some(offset) => offset,
            None => {
                return None;
            },
        };
        let total = upstream.len() as u64;
        let mut works: Vec<PixivBookmarkPageBodyWork> = Vec::new();
        if offset as u64 >= total {
            assert(works.deep_view() =~= page_of(upstream.deep_view(), page as int).works);
            return Some(PixivBookmarks { body: PixivBookmarkPageBody { works, total } });
        }
        let first = offset as usize;
        let n: usize = if upstream.len() - first <= 100 {
            upstream.len() - first
        } else {
            100
        };
        let mut i: usize = 0;
        while i < n
            invariant
                i <= n,
                first + n <= upstream.len(),
                works.len() == i,
                forall|k: int| 0 <= k < i ==> works[k]@ == upstream[first + k]@,
            decreases n - i,
        {
            works.push(upstream[first + i].clone());
            i += 1;
        }
        assert(works.deep_view() =~= page_of(upstream.deep_view(), page as int).works);
        Some(PixivBookmarks { body: PixivBookmarkPageBody { works, total } })
    }
}

/// A work of which nothing is said but its id and its tags: it is not
/// dated, every text of it is empty, every number zero and every flag down.
pub open spec fn bare_work(id: Seq<char>, tags: Seq<Seq<char>>) -> WorkView {
    WorkView {
        id,
        sync_date: None,
        title: Seq::empty(),
        illust_type: 0,
        x_restrict: 0,
        restrict: 0,
        sl: 0,
        url: Seq::empty(),
        description: Seq::empty(),
        tags,
        user_id: Seq::empty(),
        user_name: Seq::empty(),
        width: 0,
        height: 0,
        page_count: 0,
        is_bookmarkable: false,
        bookmark_data: None,
        alt: Seq::empty(),
        work_title: None,
        work_caption: None,
        create_date: Seq::empty(),
        update_date: Seq::empty(),
        is_masked: false,
        ai_type: 0,
        visibility_scope: 0,
    }
}

impl PixivBookmarkPageBodyWork {
    /// A work with this id and these tags, not yet mirrored, and with
    /// nothing else said of it.
    pub fn new(id: String, tags: Vec<String>) -> (work: Self)
        ensures
            work@ == bare_work(id@, tags.deep_view()),
    {
        PixivBookmarkPageBodyWork {
            id,
            sync_date: None,
            title: String::new(),
            illust_type: 0,
            x_restrict: 0,
            restrict: 0,
            sl: 0,
            url: String::new(),
            description: String::new(),
            tags,
            user_id: String::new(),
            user_name: String::new(),
            width: 0,
            height: 0,
            page_count: 0,
            is_bookmarkable: false,
            bookmark_data: None,
            alt: String::new(),
            title_caption_translation: PixivBookmarkPageBodyWorkTitleCaptionTranslation {
                work_title: None,
                work_caption: None,
            },
            create_date: String::new(),
            update_date: String::new(),
            is_masked: false,
            ai_type: 0,
            visibility_scope: 0,
        }
    }
}

/// A copy of a list of works.
pub fn clone_works(works: &Vec<PixivBookmarkPageBodyWork>) -> (copy: Vec<
    PixivBookmarkPageBodyWork,
>)
    ensures
        copy.deep_view() == works.deep_view(),
{
    let mut copy: Vec<PixivBookmarkPageBodyWork> = Vec::new();
    let mut i: usize = 0;
    while i < works.len()
        invariant
            i <= works.len(),
            copy.len() == i,
            forall|j: int| 0 <= j < i ==> copy[j]@ == works[j]@,
        decreases works.len() - i,
    {
        copy.push(works[i].clone());
        i += 1;
    }
    assert(copy.deep_view() =~= works.deep_view());
    copy
}

impl Clone for PixivBookmarkPageBody {
    fn clone(&self) -> (copy: Self)
        ensures
            copy@ == self@,
    {
        PixivBookmarkPageBody { works: clone_works(&self.works), total: self.total }
    }
}

impl Clone for PixivBookmarks {
    fn clone(&self) -> (copy: Self)
        ensures
            copy@ == self@,
    {
        PixivBookmarks { body: self.body.clone() }
    }
}

impl DeepView for PixivBookmarks {
    type V = PageView;

    open spec fn deep_view(&self) -> PageView {
        self@
    }
}

impl View for PixivBookmarkPageBody {
    type V = PageView;

    open spec fn view(&self) -> PageView {
        PageView { works: self.works.deep_view(), total: self.total }
    }
}

impl View for PixivBookmarks {
    type V = PageView;

    open spec fn view(&self) -> PageView {
        self.body@
    }
}

} // verus!
