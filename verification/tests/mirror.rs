use bookmark_mirror::mongodb::bookmark_tags::BookmarkTags;
use bookmark_mirror::mongodb::bookmarks::{cap_limit, first_stamp, prepare_batch, Bookmarks};
use bookmark_mirror::mongodb::plan::{insert_plan, removal_plan, StoreOp};
use bookmark_mirror::mongodb::{BookmarkTag, MongoDB, StoreError};
use bookmark_mirror::pixiv::PixivBookmarkPageBodyWork;
use bookmark_mirror::routes::bookmarks::{PaginationSort, TagFilter};

fn work(id: &str, tags: &[&str]) -> PixivBookmarkPageBodyWork {
    PixivBookmarkPageBodyWork::new(id.to_string(), tags.iter().map(|tag| tag.to_string()).collect())
}

fn ids(works: &[PixivBookmarkPageBodyWork]) -> Vec<&str> {
    works.iter().map(|work| work.id.as_str()).collect()
}

fn total(mirror: &Bookmarks, tag: &str) -> u64 {
    mirror.tags.get(tag).map(|record| record.total).unwrap_or(0)
}

// How many mirrored works list the tag.
fn holders(mirror: &Bookmarks, tag: &str) -> u64 {
    mirror.collection.iter().filter(|work| work.tags.iter().any(|listed| listed == tag)).count() as u64
}

fn counts_hold(mirror: &Bookmarks, tags: &[&str]) -> bool {
    tags.iter().all(|tag| total(mirror, tag) == holders(mirror, tag) && mirror.tags.get(tag).map_or(true, |r| r.total > 0))
}

#[test]
fn insert_takes_a_page_in_oldest_first_with_rising_dates_and_lower_case_tags() {
    let mut mirror = MongoDB::new().bookmarks;
    let mut first = work("3", &["Cat", "R-18"]);
    first.title = "newest".to_string();
    first.width = 640;
    let page = vec![first, work("2", &["cat"]), work("1", &[])];
    assert_eq!(mirror.insert_many_at(page, 1_700_000_000_000_000), Ok(()));
    assert_eq!(ids(&mirror.collection), vec!["1", "2", "3"]);
    assert_eq!(mirror.collection[0].sync_date, Some(1_700_000_000_000_000));
    assert_eq!(mirror.collection[1].sync_date, Some(1_700_000_000_000_001));
    assert_eq!(mirror.collection[2].sync_date, Some(1_700_000_000_000_002));
    assert_eq!(mirror.collection[2].tags, vec!["cat".to_string(), "r-18".to_string()]);
    // What the mirror does not read is carried through.
    assert_eq!(mirror.collection[2].title, "newest");
    assert_eq!(mirror.collection[2].width, 640);
    assert_eq!(total(&mirror, "cat"), 2);
    assert_eq!(total(&mirror, "r-18"), 1);
}

#[test]
fn insert_dates_a_later_batch_after_the_newest_work_when_the_clock_is_behind() {
    let mut mirror = MongoDB::new().bookmarks;
    assert_eq!(mirror.insert_many_at(vec![work("2", &[]), work("1", &[])], 500), Ok(()));
    assert_eq!(mirror.insert_many_at(vec![work("4", &[]), work("3", &[])], 100), Ok(()));
    let dates: Vec<i64> = mirror.collection.iter().map(|work| work.sync_date.unwrap()).collect();
    assert_eq!(dates, vec![500, 501, 502, 503]);
    assert_eq!(mirror.insert_many_at(vec![work("5", &[])], 9_000), Ok(()));
    assert_eq!(mirror.collection[4].sync_date, Some(9_000));
}

#[test]
fn insert_with_the_clock_counts_every_tag_and_dates_in_order() {
    let mut mirror = MongoDB::new().bookmarks;
    assert_eq!(mirror.insert_many(vec![work("2", &["a"]), work("1", &["a", "b"])]), Ok(()));
    assert_eq!(ids(&mirror.collection), vec!["1", "2"]);
    assert!(mirror.collection[0].sync_date.unwrap() < mirror.collection[1].sync_date.unwrap());
    assert_eq!(total(&mirror, "a"), 2);
    assert_eq!(total(&mirror, "b"), 1);
}

#[test]
fn insert_with_the_clock_dates_from_the_present_and_takes_an_empty_page() {
    let mut mirror = MongoDB::new().bookmarks;
    assert_eq!(mirror.insert_many(Vec::new()), Ok(()));
    assert!(mirror.collection.is_empty());
    assert_eq!(mirror.insert_many(vec![work("1", &[])]), Ok(()));
    // Later than the first of January 2020, in microseconds since the epoch.
    assert!(mirror.collection[0].sync_date.unwrap() > 1_577_836_800_000_000);
}

#[test]
fn insert_leaves_out_a_work_whose_id_is_mirrored_and_reports_it() {
    let mut mirror = MongoDB::new().bookmarks;
    assert_eq!(mirror.insert_many_at(vec![work("1", &["a"])], 0), Ok(()));
    let page = vec![work("3", &["a"]), work("1", &["a", "b"]), work("2", &["b"]), work("2", &["c"])];
    assert_eq!(mirror.insert_many_at(page, 10), Err(StoreError::DuplicateId));
    assert_eq!(ids(&mirror.collection), vec!["1", "2", "3"]);
    // The first of two works with one id on the page, in the order of taking in, is the one kept.
    assert_eq!(mirror.collection[1].tags, vec!["c".to_string()]);
    assert_eq!(mirror.collection[1].sync_date, Some(10));
    assert_eq!(mirror.collection[2].sync_date, Some(13));
    assert!(counts_hold(&mirror, &["a", "b", "c"]));
    assert_eq!(total(&mirror, "a"), 2);
    assert_eq!(total(&mirror, "b"), 0);
    assert_eq!(total(&mirror, "c"), 1);
}

#[test]
fn insert_changes_nothing_when_a_count_cannot_grow() {
    let tags = BookmarkTags::new(vec![BookmarkTag { id: "full".to_string(), name: None, total: u64::MAX }]);
    let mut mirror = Bookmarks::new(Vec::new(), tags);
    let page = vec![work("2", &["full"]), work("1", &["fresh"])];
    assert_eq!(mirror.insert_many_at(page, 0), Err(StoreError::CounterOverflow));
    assert!(mirror.collection.is_empty());
    assert!(mirror.tags.get("fresh").is_none());
    assert_eq!(total(&mirror, "full"), u64::MAX);
}

#[test]
fn insert_changes_nothing_when_the_dates_run_out() {
    let mut mirror = MongoDB::new().bookmarks;
    let page = vec![work("2", &["a"]), work("1", &["a"])];
    assert_eq!(mirror.insert_many_at(page, i64::MAX), Err(StoreError::ClockExhausted));
    assert!(mirror.collection.is_empty());
    assert!(mirror.tags.get("a").is_none());
    assert_eq!(mirror.insert_many_at(vec![work("1", &["a"])], i64::MAX), Ok(()));
    assert_eq!(mirror.insert_many_at(vec![work("2", &["a"])], 0), Err(StoreError::ClockExhausted));
    assert_eq!(mirror.collection.len(), 1);
    assert_eq!(mirror.insert_many_at(Vec::new(), 0), Ok(()));
}

#[test]
fn delete_removes_the_work_and_one_reference_for_each_of_its_tags() {
    let mut mirror = MongoDB::new().bookmarks;
    assert_eq!(mirror.insert_many_at(vec![work("2", &["a", "b"]), work("1", &["a"])], 0), Ok(()));
    mirror.delete(&"2".to_string());
    assert_eq!(ids(&mirror.collection), vec!["1"]);
    assert_eq!(total(&mirror, "a"), 1);
    assert!(mirror.tags.get("b").is_none());
    mirror.delete(&"2".to_string());
    assert_eq!(ids(&mirror.collection), vec!["1"]);
    mirror.delete(&"1".to_string());
    assert!(mirror.collection.is_empty());
    assert!(mirror.tags.get("a").is_none());
}

#[test]
fn counts_equal_the_number_of_holders_after_every_operation() {
    let tags = ["a", "b", "c"];
    let mut mirror = MongoDB::new().bookmarks;
    assert!(counts_hold(&mirror, &tags));
    let _ = mirror.insert_many_at(vec![work("3", &["A", "b"]), work("2", &["b"]), work("1", &["c", "a"])], 5);
    assert!(counts_hold(&mirror, &tags));
    mirror.delete(&"2".to_string());
    assert!(counts_hold(&mirror, &tags));
    let _ = mirror.insert_many_at(vec![work("3", &["c"]), work("4", &["B", "c"])], 1);
    assert!(counts_hold(&mirror, &tags));
    mirror.delete(&"1".to_string());
    assert!(counts_hold(&mirror, &tags));
    mirror.delete(&"9".to_string());
    assert!(counts_hold(&mirror, &tags));
    mirror.delete(&"3".to_string());
    mirror.delete(&"4".to_string());
    assert!(counts_hold(&mirror, &tags));
    assert!(mirror.collection.is_empty());
    assert!(mirror.tags.find("").is_empty());
}

#[test]
fn a_tag_listed_twice_by_one_work_counts_once() {
    let mut mirror = MongoDB::new().bookmarks;
    assert_eq!(mirror.insert_many_at(vec![work("1", &["Cat", "cat"])], 0), Ok(()));
    // The work keeps its tags as they came, in lower case; the count is that of the works.
    assert_eq!(mirror.collection[0].tags, vec!["cat".to_string(), "cat".to_string()]);
    assert_eq!(total(&mirror, "cat"), 1);
    assert_eq!(mirror.tags.find("").len(), 1);
    mirror.delete(&"1".to_string());
    assert!(mirror.tags.get("cat").is_none());
}

#[test]
fn removing_a_work_that_lists_a_tag_twice_lowers_the_count_by_one() {
    let mut mirror = MongoDB::new().bookmarks;
    let page = vec![work("3", &["a"]), work("2", &["a", "b", "A"]), work("1", &["a", "a"])];
    assert_eq!(mirror.insert_many_at(page, 0), Ok(()));
    assert_eq!(total(&mirror, "a"), 3);
    assert_eq!(total(&mirror, "b"), 1);
    mirror.delete(&"2".to_string());
    assert_eq!(total(&mirror, "a"), 2);
    assert!(mirror.tags.get("b").is_none());
    mirror.delete(&"1".to_string());
    assert_eq!(total(&mirror, "a"), 1);
    assert!(counts_hold(&mirror, &["a", "b"]));
    mirror.delete(&"3".to_string());
    assert!(mirror.tags.get("a").is_none());
}

#[test]
fn find_lists_in_the_order_asked_for_from_the_offset_on() {
    let mut mirror = MongoDB::new().bookmarks;
    let page: Vec<PixivBookmarkPageBodyWork> = (1..=7).rev().map(|n| work(&n.to_string(), &[])).collect();
    assert_eq!(mirror.insert_many_at(page, 0), Ok(()));
    assert_eq!(ids(&mirror.find(&None, 0, 3, PaginationSort::Descending)), vec!["7", "6", "5"]);
    assert_eq!(ids(&mirror.find(&None, 2, 3, PaginationSort::Descending)), vec!["5", "4", "3"]);
    assert_eq!(ids(&mirror.find(&None, 5, 3, PaginationSort::Ascending)), vec!["6", "7"]);
    assert_eq!(ids(&mirror.find(&None, 0, 2, PaginationSort::Ascending)), vec!["1", "2"]);
    assert!(mirror.find(&None, 7, 3, PaginationSort::Ascending).is_empty());
    assert!(mirror.find(&None, u64::MAX, 3, PaginationSort::Ascending).is_empty());
    assert!(mirror.find(&None, 0, 0, PaginationSort::Ascending).is_empty());
    assert!(mirror.find(&None, 0, -4, PaginationSort::Descending).is_empty());
    assert_eq!(mirror.count(&None), 7);
}

#[test]
fn find_never_gives_more_than_a_page() {
    let mut mirror = MongoDB::new().bookmarks;
    let page: Vec<PixivBookmarkPageBodyWork> = (1..=130).rev().map(|n| work(&n.to_string(), &[])).collect();
    assert_eq!(mirror.insert_many_at(page, 0), Ok(()));
    let found = mirror.find(&None, 0, 1_000, PaginationSort::Descending);
    assert_eq!(found.len(), 100);
    assert_eq!(found[0].id, "130");
    assert_eq!(found[99].id, "31");
    assert_eq!(mirror.find(&None, 0, i64::MAX, PaginationSort::Ascending).len(), 100);
}

#[test]
fn find_and_count_follow_the_filter() {
    let mut mirror = MongoDB::new().bookmarks;
    let page = vec![
        work("4", &["R-18", "Cat"]),
        work("3", &["cat"]),
        work("2", &["r-18g", "dog"]),
        work("1", &["CAT", "R-18G"]),
    ];
    assert_eq!(mirror.insert_many_at(page, 0), Ok(()));
    let filter = Some(TagFilter {
        groups: vec![vec!["r-18".to_string(), "r-18g".to_string()], vec!["cat".to_string()]],
    });
    assert_eq!(ids(&mirror.find(&filter, 0, 30, PaginationSort::Descending)), vec!["4", "1"]);
    assert_eq!(mirror.count(&filter), 2);
    let none = Some(TagFilter { groups: vec![vec![]] });
    assert_eq!(mirror.count(&none), 0);
    let every = Some(TagFilter { groups: vec![] });
    assert_eq!(mirror.count(&every), 4);
}

#[test]
fn get_and_contains_find_a_work_by_its_id() {
    let mut mirror = MongoDB::new().bookmarks;
    assert_eq!(mirror.insert_many_at(vec![work("20", &["x"]), work("10", &[])], 3), Ok(()));
    let found = mirror.get(&"20".to_string()).unwrap();
    assert_eq!(found.id, "20");
    assert_eq!(found.sync_date, Some(4));
    assert!(mirror.contains(&"10".to_string()));
    assert!(!mirror.contains(&"1".to_string()));
    assert!(mirror.get(&"2".to_string()).is_none());
}

#[test]
fn limit_is_capped_at_a_page_and_never_below_zero() {
    assert_eq!(cap_limit(30), 30);
    assert_eq!(cap_limit(100), 100);
    assert_eq!(cap_limit(101), 100);
    assert_eq!(cap_limit(0), 0);
    assert_eq!(cap_limit(-1), 0);
    assert_eq!(cap_limit(i64::MIN), 0);
}

#[test]
fn first_stamp_is_the_clock_or_the_moment_after_the_newest_date() {
    assert_eq!(first_stamp(None, 7), Some(7));
    assert_eq!(first_stamp(Some(3), 7), Some(7));
    assert_eq!(first_stamp(Some(7), 7), Some(8));
    assert_eq!(first_stamp(Some(90), 7), Some(91));
    assert_eq!(first_stamp(Some(i64::MAX), 7), None);
    assert_eq!(first_stamp(Some(i64::MAX), i64::MAX), None);
    assert_eq!(first_stamp(Some(i64::MAX - 1), i64::MAX), Some(i64::MAX));
}

#[test]
fn prepare_batch_turns_the_page_round_and_dates_it() {
    let batch = prepare_batch(vec![work("3", &["B"]), work("2", &[]), work("1", &["A", "a"])], -1).unwrap();
    assert_eq!(ids(&batch), vec!["1", "2", "3"]);
    assert_eq!(batch[0].sync_date, Some(-1));
    assert_eq!(batch[2].sync_date, Some(1));
    assert_eq!(batch[0].tags, vec!["a".to_string(), "a".to_string()]);
    assert_eq!(batch[2].tags, vec!["b".to_string()]);
    assert!(prepare_batch(vec![work("2", &[]), work("1", &[])], i64::MAX).is_none());
    assert_eq!(prepare_batch(vec![work("1", &[])], i64::MAX).unwrap()[0].sync_date, Some(i64::MAX));
    assert!(prepare_batch(Vec::new(), i64::MAX).unwrap().is_empty());
}

fn told(ops: &[StoreOp]) -> Vec<String> {
    ops.iter()
        .map(|op| match op {
            StoreOp::IncrementTag(id) => format!("+{id}"),
            StoreOp::DecrementTag(id) => format!("-{id}"),
            StoreOp::DeleteTag(id) => format!("x{id}"),
            StoreOp::InsertWork(work) => format!("insert {}", work.id),
            StoreOp::DeleteWork(id) => format!("delete {id}"),
        })
        .collect()
}

#[test]
fn removal_plan_releases_each_tag_of_the_work_once() {
    let records = BookmarkTags::new(vec![
        BookmarkTag { id: "a".to_string(), name: None, total: 3 },
        BookmarkTag { id: "b".to_string(), name: None, total: 1 },
        BookmarkTag { id: "d".to_string(), name: None, total: 0 },
    ]);
    let ops = removal_plan(&work("7", &["a", "b", "a", "c", "d"]), &records);
    assert_eq!(told(&ops), vec!["-a", "xb", "xd", "delete 7"]);
    assert_eq!(told(&removal_plan(&work("8", &[]), &records)), vec!["delete 8"]);
}

#[test]
fn insert_plan_counts_each_tag_of_a_work_once_and_leaves_out_what_is_held() {
    let batch = vec![work("1", &["a", "a", "b"]), work("2", &["b"]), work("1", &["c"]), work("3", &[]), work("4", &["a"])];
    let ops = insert_plan(&batch, &vec!["2".to_string()]);
    assert_eq!(told(&ops), vec!["+a", "+b", "insert 1", "insert 3", "+a", "insert 4"]);
    assert!(insert_plan(&Vec::new(), &Vec::new()).is_empty());
}

#[test]
fn performing_the_plans_comes_to_what_the_mirror_does() {
    let page = vec![work("3", &["a"]), work("2", &["a", "b", "a"]), work("2", &["z"]), work("1", &["b"])];
    let mut direct = MongoDB::new().bookmarks;
    assert_eq!(direct.insert_many_at(vec![work("3", &["a", "x"])], 0), Ok(()));
    let mut planned = MongoDB::new().bookmarks;
    assert_eq!(planned.insert_many_at(vec![work("3", &["a", "x"])], 0), Ok(()));

    assert_eq!(direct.insert_many_at(page.clone(), 10), Err(StoreError::DuplicateId));
    let base = first_stamp(planned.newest_date(), 10).unwrap();
    let batch = prepare_batch(page, base).unwrap();
    let held: Vec<String> = batch.iter().filter(|work| planned.contains(&work.id)).map(|work| work.id.clone()).collect();
    for op in insert_plan(&batch, &held) {
        match op {
            StoreOp::IncrementTag(id) => planned.tags.increment_exact(id).unwrap(),
            StoreOp::InsertWork(work) => planned.collection.push(work),
            _ => panic!("an insert plan only counts and inserts"),
        }
    }
    assert_eq!(ids(&planned.collection), ids(&direct.collection));
    for (left, right) in planned.collection.iter().zip(direct.collection.iter()) {
        assert_eq!(left.sync_date, right.sync_date);
        assert_eq!(left.tags, right.tags);
    }
    for tag in ["a", "b", "x", "z"] {
        assert_eq!(total(&planned, tag), total(&direct, tag));
    }
    // Of the two works with the id 2 the older one, which stands later on the page, is taken in.
    assert_eq!(total(&direct, "a"), 1);
    assert_eq!(total(&direct, "b"), 1);
    assert_eq!(total(&direct, "z"), 1);
}
