use bookmark_mirror::mongodb::bookmark_tags::BookmarkTags;
use bookmark_mirror::mongodb::bookmarks::Bookmarks;
use bookmark_mirror::mongodb::{BookmarkTag, MongoDB};
use bookmark_mirror::pixiv::{page_offset, PixivBookmarkPageBody, PixivBookmarkPageBodyWork, PixivBookmarks};
use bookmark_mirror::sync::backfill::{total_pages, Backfill, BackfillPhase};
use bookmark_mirror::sync::replay::{bootstrap, insert_all_bookmarks, SyncError};
use bookmark_mirror::sync::{Action, Event};

fn work(id: u32, tags: &[&str]) -> PixivBookmarkPageBodyWork {
    PixivBookmarkPageBodyWork::new(id.to_string(), tags.iter().map(|tag| tag.to_string()).collect())
}

fn upstream(newest: u32) -> Vec<PixivBookmarkPageBodyWork> {
    (1..=newest).rev().map(|id| work(id, if id % 3 == 0 { &["Fizz", "all"] } else { &["all"] })).collect()
}

fn record(upstream: &Vec<PixivBookmarkPageBodyWork>, pages: i64) -> Vec<Option<PixivBookmarks>> {
    (1..=pages).map(|page| PixivBookmarks::get_page(page, upstream)).collect()
}

fn page(works: Vec<PixivBookmarkPageBodyWork>, total: u64) -> PixivBookmarks {
    PixivBookmarks { body: PixivBookmarkPageBody { works, total } }
}

#[test]
fn total_pages_rounds_up() {
    assert_eq!(total_pages(0), 0);
    assert_eq!(total_pages(1), 1);
    assert_eq!(total_pages(100), 1);
    assert_eq!(total_pages(101), 2);
    assert_eq!(total_pages(250), 3);
    assert_eq!(total_pages(u64::MAX), 184_467_440_737_095_517);
}

#[test]
fn page_offset_is_a_page_size_for_each_page_before() {
    assert_eq!(page_offset(1), Some(0));
    assert_eq!(page_offset(2), Some(100));
    assert_eq!(page_offset(26), Some(2_500));
    assert_eq!(page_offset(0), None);
    assert_eq!(page_offset(-3), None);
    assert_eq!(page_offset(i64::MAX), None);
    assert_eq!(page_offset(92_233_720_368_547_759), Some(9_223_372_036_854_775_800));
    assert_eq!(page_offset(92_233_720_368_547_760), None);
}

#[test]
fn get_page_cuts_the_upstream_into_pages_newest_first() {
    let all = upstream(250);
    let first = PixivBookmarks::get_page(1, &all).unwrap();
    assert_eq!(first.body.total, 250);
    assert_eq!(first.body.works.len(), 100);
    assert_eq!(first.body.works[0].id, "250");
    assert_eq!(first.body.works[99].id, "151");
    let third = PixivBookmarks::get_page(3, &all).unwrap();
    assert_eq!(third.body.works.len(), 50);
    assert_eq!(third.body.works[0].id, "50");
    assert_eq!(third.body.works[49].id, "1");
    assert!(PixivBookmarks::get_page(4, &all).unwrap().body.works.is_empty());
    assert!(PixivBookmarks::get_page(0, &all).is_none());
    assert_eq!(PixivBookmarks::get_page(2, &upstream(200)).unwrap().body.works.len(), 100);
}

#[test]
fn backfill_takes_the_pages_in_from_the_oldest_to_the_newest() {
    let all = upstream(250);
    let mut mirror = MongoDB::new();
    assert_eq!(insert_all_bookmarks(&mut mirror, &record(&all, 3), 1_000), Ok(()));
    let works = &mirror.bookmarks.collection;
    assert_eq!(works.len(), 250);
    for (at, work) in works.iter().enumerate() {
        assert_eq!(work.id, (at + 1).to_string());
        assert_eq!(work.sync_date, Some(1_000 + at as i64));
    }
    assert_eq!(mirror.bookmarks.tags.get("all").unwrap().total, 250);
    assert_eq!(mirror.bookmarks.tags.get("fizz").unwrap().total, 83);
}

#[test]
fn bootstrap_run_twice_leaves_what_one_run_leaves() {
    let answers = record(&upstream(230), 3);
    let mut once = MongoDB::new();
    assert_eq!(bootstrap(&mut once, &answers, 50), Ok(()));
    let mut twice = MongoDB::new();
    assert_eq!(bootstrap(&mut twice, &answers, 50), Ok(()));
    assert_eq!(bootstrap(&mut twice, &answers, 90_000), Ok(()));
    assert_eq!(once.bookmarks.collection.len(), 230);
    assert_eq!(twice.bookmarks.collection.len(), 230);
    for (first, second) in once.bookmarks.collection.iter().zip(twice.bookmarks.collection.iter()) {
        assert_eq!(first.id, second.id);
        assert_eq!(first.sync_date, second.sync_date);
    }
    assert_eq!(twice.bookmarks.tags.get("all").unwrap().total, 230);
    assert_eq!(twice.bookmarks.tags.get("fizz").unwrap().total, 76);
}

#[test]
fn bootstrap_against_an_empty_upstream_leaves_the_mirror_empty() {
    let answers = record(&Vec::new(), 1);
    let mut mirror = MongoDB::new();
    assert_eq!(bootstrap(&mut mirror, &answers, 0), Ok(()));
    assert_eq!(bootstrap(&mut mirror, &answers, 0), Ok(()));
    assert!(mirror.bookmarks.collection.is_empty());
}

#[test]
fn backfill_that_is_interrupted_leaves_the_mirror_as_it_was() {
    let mut answers = record(&upstream(250), 3);
    answers[1] = None;
    let mut mirror = MongoDB::new();
    assert_eq!(insert_all_bookmarks(&mut mirror, &answers, 0), Err(SyncError::Interrupted));
    // The last page was answered, but nothing is taken in before all pages are.
    assert!(mirror.bookmarks.collection.is_empty());
    assert!(mirror.bookmarks.tags.find("").is_empty());
    // So the next start finds the mirror empty and fills it from scratch.
    assert_eq!(bootstrap(&mut mirror, &record(&upstream(250), 3), 0), Ok(()));
    assert_eq!(mirror.bookmarks.collection.len(), 250);

    let mut mirror = MongoDB::new();
    assert_eq!(insert_all_bookmarks(&mut mirror, &Vec::new(), 0), Err(SyncError::Interrupted));
    assert!(mirror.bookmarks.collection.is_empty());
}

#[test]
fn backfill_is_interrupted_when_the_mirror_refuses_the_works() {
    let full = BookmarkTags::new(vec![BookmarkTag { id: "all".to_string(), name: None, total: u64::MAX }]);
    let mut mirror = MongoDB { bookmarks: Bookmarks::new(Vec::new(), full) };
    assert_eq!(insert_all_bookmarks(&mut mirror, &record(&upstream(120), 2), 0), Err(SyncError::Interrupted));
    assert!(mirror.bookmarks.collection.is_empty());
    assert_eq!(mirror.bookmarks.tags.get("all").unwrap().total, u64::MAX);
    assert!(mirror.bookmarks.tags.get("fizz").is_none());

    let mut mirror = MongoDB::new();
    assert_eq!(insert_all_bookmarks(&mut mirror, &record(&upstream(120), 2), i64::MAX), Err(SyncError::Interrupted));
    assert!(mirror.bookmarks.collection.is_empty());
}

#[test]
fn backfill_leaves_out_a_work_that_two_pages_show() {
    // The upstream moved between two requests: the work 2 is on both pages.
    let answers = vec![
        Some(page(vec![work(3, &["a"]), work(2, &["a"])], 101)),
        Some(page(vec![work(2, &["a"]), work(1, &["a"])], 101)),
    ];
    let mut mirror = MongoDB::new();
    assert_eq!(insert_all_bookmarks(&mut mirror, &answers, 0), Ok(()));
    let ids: Vec<&str> = mirror.bookmarks.collection.iter().map(|work| work.id.as_str()).collect();
    assert_eq!(ids, vec!["1", "2", "3"]);
    assert_eq!(mirror.bookmarks.tags.get("a").unwrap().total, 3);
}

#[test]
fn second_backfill_changes_nothing() {
    let answers = record(&upstream(230), 3);
    let mut mirror = MongoDB::new();
    assert_eq!(insert_all_bookmarks(&mut mirror, &answers, 50), Ok(()));
    let before: Vec<(String, Option<i64>)> =
        mirror.bookmarks.collection.iter().map(|work| (work.id.clone(), work.sync_date)).collect();
    assert_eq!(insert_all_bookmarks(&mut mirror, &answers, 90_000), Ok(()));
    let after: Vec<(String, Option<i64>)> =
        mirror.bookmarks.collection.iter().map(|work| (work.id.clone(), work.sync_date)).collect();
    assert_eq!(after, before);
    assert_eq!(mirror.bookmarks.tags.get("all").unwrap().total, 230);
    assert_eq!(mirror.bookmarks.tags.get("fizz").unwrap().total, 76);
}

#[test]
fn backfill_machine_asks_for_every_page_before_it_hands_works_over() {
    let (backfill, action) = Backfill::new().step(Event::Begin);
    assert!(matches!(action, Action::FetchPage { page: 1 }));
    let (backfill, action) = backfill.step(Event::Page(page(vec![work(9, &[]), work(8, &[])], 201)));
    assert!(matches!(action, Action::FetchPage { page: 3 }));
    let (backfill, action) = backfill.step(Event::Page(page(vec![work(1, &[])], 201)));
    assert!(matches!(action, Action::FetchPage { page: 2 }));
    assert_eq!(backfill.phase, BackfillPhase::Page);
    let (backfill, action) = backfill.step(Event::Page(page(vec![work(5, &[]), work(4, &[])], 201)));
    match action {
        Action::Insert { works } => {
            let ids: Vec<&str> = works.iter().map(|work| work.id.as_str()).collect();
            assert_eq!(ids, vec!["9", "8", "5", "4", "1"]);
        },
        _ => panic!("the works of all pages are to be inserted, newest first"),
    }
    assert_eq!(backfill.phase, BackfillPhase::Insert);
    let (backfill, action) = backfill.step(Event::Inserted);
    assert!(matches!(action, Action::Finish));
    assert!(backfill.succeeded());
    // A backfill that is over stays over.
    let (backfill, action) = backfill.step(Event::FetchFailed);
    assert!(matches!(action, Action::Finish));
    assert!(backfill.succeeded());
}

#[test]
fn backfill_machine_gives_up_on_a_failure() {
    let (backfill, _) = Backfill::new().step(Event::Begin);
    let (backfill, action) = backfill.step(Event::FetchFailed);
    assert!(matches!(action, Action::Finish));
    assert_eq!(backfill.phase, BackfillPhase::Failed);
    assert!(!backfill.succeeded());

    // A later page fails: no insert was asked for before.
    let (backfill, _) = Backfill::new().step(Event::Begin);
    let (backfill, action) = backfill.step(Event::Page(page(vec![work(9, &[])], 300)));
    assert!(matches!(action, Action::FetchPage { page: 3 }));
    let (backfill, action) = backfill.step(Event::Page(page(vec![work(1, &[])], 300)));
    assert!(matches!(action, Action::FetchPage { page: 2 }));
    let (backfill, action) = backfill.step(Event::FetchFailed);
    assert!(matches!(action, Action::Finish));
    assert_eq!(backfill.phase, BackfillPhase::Failed);

    let (backfill, _) = Backfill::new().step(Event::Begin);
    let (backfill, _) = backfill.step(Event::Page(page(vec![work(1, &[])], 1)));
    let (backfill, action) = backfill.step(Event::InsertFailed);
    assert!(matches!(action, Action::Finish));
    assert_eq!(backfill.phase, BackfillPhase::Failed);
}

#[test]
fn backfill_machine_has_nothing_to_do_for_an_empty_upstream() {
    let (backfill, _) = Backfill::new().step(Event::Begin);
    let (backfill, action) = backfill.step(Event::Page(page(Vec::new(), 0)));
    assert!(matches!(action, Action::Finish));
    assert!(backfill.succeeded());
}
