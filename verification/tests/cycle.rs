use bookmark_mirror::mongodb::MongoDB;
use bookmark_mirror::pixiv::{PixivBookmarkPageBody, PixivBookmarkPageBodyWork, PixivBookmarks};
use bookmark_mirror::sync::bookmarks::{DiffCycle, Phase};
use bookmark_mirror::sync::replay::{insert_all_bookmarks, run_cycle, sync_bookmarks};
use bookmark_mirror::sync::{Action, Event};

fn work(id: u32, tags: &[&str]) -> PixivBookmarkPageBodyWork {
    PixivBookmarkPageBodyWork::new(id.to_string(), tags.iter().map(|tag| tag.to_string()).collect())
}

// The upstream as pages of 100, newest first: the works `newest`, `newest - 1`, .., `oldest`.
fn pages(newest: u32, oldest: u32) -> Vec<Option<PixivBookmarks>> {
    let all: Vec<PixivBookmarkPageBodyWork> =
        (oldest..=newest).rev().map(|id| work(id, &["Art", "cat"])).collect();
    let total = all.len() as u64;
    let mut answers = Vec::new();
    for chunk in all.chunks(100) {
        answers.push(Some(PixivBookmarks { body: PixivBookmarkPageBody { works: chunk.to_vec(), total } }));
    }
    // A page past the end is answered, and empty.
    answers.push(Some(PixivBookmarks { body: PixivBookmarkPageBody { works: Vec::new(), total } }));
    answers
}

fn ids(mirror: &MongoDB) -> Vec<String> {
    mirror.bookmarks.collection.iter().map(|work| work.id.clone()).collect()
}

#[test]
fn cycle_on_a_mirror_that_is_up_to_date_fetches_one_page_and_inserts_nothing() {
    let answers = pages(250, 1);
    let mut mirror = MongoDB::new();
    assert_eq!(insert_all_bookmarks(&mut mirror, &answers, 1_000), Ok(()));
    assert_eq!(mirror.bookmarks.collection.len(), 250);
    let before = ids(&mirror);

    let report = run_cycle(&mut mirror.bookmarks, &answers, 2_000_000);
    assert_eq!(report.fetches, 1);
    assert!(report.staged.is_empty());
    assert!(report.removed.is_empty());
    assert!(report.completed);
    assert_eq!(report.stored, Ok(()));
    assert_eq!(ids(&mirror), before);
}

#[test]
fn cycle_catches_up_over_two_pages() {
    // The mirror holds the oldest 100 of 250 works.
    let mut mirror = MongoDB::new();
    let old = pages(100, 1);
    assert_eq!(insert_all_bookmarks(&mut mirror, &old, 5), Ok(()));
    assert_eq!(mirror.bookmarks.collection.len(), 100);

    let answers = pages(250, 1);
    let report = run_cycle(&mut mirror.bookmarks, &answers, 10_000);
    assert_eq!(report.fetches, 2);
    assert!(report.completed);
    assert_eq!(report.staged.len(), 150);
    assert_eq!(report.staged[0], "250");
    assert_eq!(report.staged[149], "101");
    assert_eq!(report.stored, Ok(()));
    assert!(report.removed.is_empty());

    let works = &mirror.bookmarks.collection;
    assert_eq!(works.len(), 250);
    // Oldest first, and each dated later than the one before it.
    for (at, work) in works.iter().enumerate() {
        assert_eq!(work.id, (at + 1).to_string());
        assert_eq!(work.tags, vec!["art".to_string(), "cat".to_string()]);
    }
    for pair in works.windows(2) {
        assert!(pair[0].sync_date.unwrap() < pair[1].sync_date.unwrap());
    }
    assert_eq!(works[100].sync_date, Some(10_000));
    assert_eq!(works[249].sync_date, Some(10_149));
    assert_eq!(mirror.bookmarks.tags.get("art").unwrap().total, 250);
    assert_eq!(mirror.bookmarks.tags.get("cat").unwrap().total, 250);
}

#[test]
fn cycle_removes_what_left_the_recent_window_and_nothing_older() {
    let mut mirror = MongoDB::new();
    assert_eq!(insert_all_bookmarks(&mut mirror, &pages(150, 1), 0), Ok(()));
    // Upstream loses the work 140, which is inside the window of 100, and the work 7, which is not.
    let all: Vec<PixivBookmarkPageBodyWork> =
        (1..=150u32).rev().filter(|id| *id != 140 && *id != 7).map(|id| work(id, &["art", "cat"])).collect();
    let answers = vec![
        Some(PixivBookmarks { body: PixivBookmarkPageBody { works: all[..100].to_vec(), total: 148 } }),
        Some(PixivBookmarks { body: PixivBookmarkPageBody { works: all[100..].to_vec(), total: 148 } }),
    ];
    let report = run_cycle(&mut mirror.bookmarks, &answers, 1);
    assert_eq!(report.fetches, 1);
    assert!(report.staged.is_empty());
    assert_eq!(report.removed, vec!["140".to_string()]);
    assert!(mirror.bookmarks.get(&"140".to_string()).is_none());
    assert!(mirror.bookmarks.get(&"7".to_string()).is_some());
    assert_eq!(mirror.bookmarks.collection.len(), 149);
    assert_eq!(mirror.bookmarks.tags.get("art").unwrap().total, 149);
    assert_eq!(mirror.bookmarks.tags.get("cat").unwrap().total, 149);
}

#[test]
fn cycle_is_abandoned_when_a_page_request_fails() {
    let mut mirror = MongoDB::new();
    assert_eq!(insert_all_bookmarks(&mut mirror, &pages(100, 1), 0), Ok(()));
    let mut answers = pages(350, 1);
    answers[1] = None;
    let report = run_cycle(&mut mirror.bookmarks, &answers, 9);
    assert_eq!(report.fetches, 2);
    assert!(!report.completed);
    assert!(report.staged.is_empty());
    assert!(report.removed.is_empty());
    assert_eq!(mirror.bookmarks.collection.len(), 100);
}

#[test]
fn machine_stops_paging_after_the_page_with_a_mirrored_work() {
    let cycle = DiffCycle::new();
    let (cycle, action) = cycle.step(Event::Begin);
    assert!(matches!(action, Action::FetchPage { page: 1 }));
    let page = PixivBookmarks {
        body: PixivBookmarkPageBody { works: vec![work(3, &["a"]), work(2, &["b"]), work(1, &[])], total: 3 },
    };
    let (cycle, action) = cycle.step(Event::Page(page));
    assert!(matches!(&action, Action::Lookup { id } if id == "3"));
    let (cycle, action) = cycle.step(Event::Missing);
    assert!(matches!(&action, Action::Lookup { id } if id == "2"));
    let (cycle, action) = cycle.step(Event::Found);
    // The page is finished although a mirrored work was seen.
    assert!(matches!(&action, Action::Lookup { id } if id == "1"));
    let (cycle, action) = cycle.step(Event::Missing);
    match action {
        Action::Insert { works } => {
            let staged: Vec<&str> = works.iter().map(|work| work.id.as_str()).collect();
            assert_eq!(staged, vec!["3", "1"]);
        },
        _ => panic!("the new works are to be inserted"),
    }
    assert_eq!(cycle.phase, Phase::Inserting);
    let (cycle, action) = cycle.step(Event::InsertFailed);
    assert!(matches!(action, Action::FindRecent { limit: 3 }));
    let (cycle, action) = cycle.step(Event::Recent(vec![work(9, &[]), work(3, &[]), work(8, &[])]));
    assert!(matches!(&action, Action::Delete { id } if id == "9"));
    let (cycle, action) = cycle.step(Event::Deleted);
    assert!(matches!(&action, Action::Delete { id } if id == "8"));
    let (cycle, action) = cycle.step(Event::Deleted);
    assert!(matches!(action, Action::Finish));
    assert_eq!(cycle.phase, Phase::Done);
}

#[test]
fn machine_treats_a_failed_lookup_as_the_end_of_paging() {
    let (cycle, _) = DiffCycle::new().step(Event::Begin);
    let page = PixivBookmarks {
        body: PixivBookmarkPageBody { works: vec![work(3, &[]), work(2, &[]), work(1, &[])], total: 3 },
    };
    let (cycle, _) = cycle.step(Event::Page(page));
    let (cycle, action) = cycle.step(Event::Missing);
    assert!(matches!(&action, Action::Lookup { id } if id == "2"));
    let (_, action) = cycle.step(Event::LookupFailed);
    match action {
        Action::Insert { works } => assert_eq!(works.len(), 1),
        _ => panic!("the work found new before the failure is to be inserted"),
    }
}

#[test]
fn machine_ends_the_cycle_on_an_event_it_does_not_wait_for() {
    let (cycle, _) = DiffCycle::new().step(Event::Begin);
    let (cycle, action) = cycle.step(Event::Found);
    assert!(matches!(action, Action::Finish));
    assert_eq!(cycle.phase, Phase::Done);
}

#[test]
fn machine_with_an_empty_first_page_has_no_window_and_finishes() {
    let (cycle, _) = DiffCycle::new().step(Event::Begin);
    let page = PixivBookmarks { body: PixivBookmarkPageBody { works: Vec::new(), total: 0 } };
    let (cycle, action) = cycle.step(Event::Page(page));
    assert!(matches!(action, Action::Finish));
    assert_eq!(cycle.phase, Phase::Done);
}

#[test]
fn sync_bookmarks_backfills_an_empty_mirror_and_then_runs_a_cycle() {
    let answers = pages(120, 1);
    let mut mirror = MongoDB::new();
    let report = sync_bookmarks(&mut mirror, &answers, 77).unwrap();
    assert_eq!(mirror.bookmarks.collection.len(), 120);
    assert_eq!(report.fetches, 1);
    assert!(report.staged.is_empty());
    assert!(report.removed.is_empty());
    assert_eq!(mirror.bookmarks.collection[0].id, "1");
    assert_eq!(mirror.bookmarks.collection[119].id, "120");
}

#[test]
fn machine_skips_the_comparison_when_the_recent_works_cannot_be_read() {
    let (cycle, _) = DiffCycle::new().step(Event::Begin);
    let page = PixivBookmarks { body: PixivBookmarkPageBody { works: vec![work(2, &[]), work(1, &[])], total: 2 } };
    let (cycle, _) = cycle.step(Event::Page(page));
    let (cycle, _) = cycle.step(Event::Found);
    let (cycle, action) = cycle.step(Event::Found);
    assert!(matches!(action, Action::FindRecent { limit: 2 }));
    assert_eq!(cycle.phase, Phase::Windowing);
    let (cycle, action) = cycle.step(Event::RecentFailed);
    assert!(matches!(action, Action::Finish));
    assert_eq!(cycle.phase, Phase::Done);
    // A cycle that is over stays over.
    let (cycle, action) = cycle.step(Event::Begin);
    assert!(matches!(action, Action::Finish));
    assert_eq!(cycle.phase, Phase::Done);
}

#[test]
fn machine_goes_on_to_the_next_page_when_every_work_is_new() {
    let (cycle, _) = DiffCycle::new().step(Event::Begin);
    let page = PixivBookmarks { body: PixivBookmarkPageBody { works: vec![work(4, &[]), work(3, &[])], total: 4 } };
    let (cycle, _) = cycle.step(Event::Page(page));
    let (cycle, _) = cycle.step(Event::Missing);
    let (cycle, action) = cycle.step(Event::Missing);
    assert!(matches!(action, Action::FetchPage { page: 2 }));
    assert_eq!(cycle.recent_ids, vec!["4".to_string(), "3".to_string()]);
    // The window is that of the newest page, whatever the later pages show.
    let page = PixivBookmarks { body: PixivBookmarkPageBody { works: vec![work(2, &[])], total: 4 } };
    let (cycle, _) = cycle.step(Event::Page(page));
    let (cycle, action) = cycle.step(Event::Found);
    assert!(matches!(&action, Action::Insert { works } if works.len() == 2));
    assert_eq!(cycle.recent_ids, vec!["4".to_string(), "3".to_string()]);
    let (_, action) = cycle.step(Event::Inserted);
    assert!(matches!(action, Action::FindRecent { limit: 2 }));
}
