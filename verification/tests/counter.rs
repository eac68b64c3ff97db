use bookmark_mirror::mongodb::bookmark_tags::{search_conditions, BookmarkTags, TagCondition};
use bookmark_mirror::mongodb::ranking::rank;
use bookmark_mirror::mongodb::{BookmarkTag, StoreError};

fn record(id: &str, name: Option<&str>, total: u64) -> BookmarkTag {
    BookmarkTag { id: id.to_string(), name: name.map(|name| name.to_string()), total }
}

fn ids(records: &[BookmarkTag]) -> Vec<&str> {
    records.iter().map(|record| record.id.as_str()).collect()
}

#[test]
fn increment_creates_a_record_with_total_one() {
    let mut tags = BookmarkTags::new(Vec::new());
    assert_eq!(tags.increment("Cat"), Ok(()));
    let record = tags.get("cat").unwrap();
    assert_eq!(record.id, "cat");
    assert_eq!(record.total, 1);
    assert_eq!(record.name, None);
    assert_eq!(tags.increment("CAT"), Ok::<(), StoreError>(()));
    assert_eq!(tags.get("cAt").unwrap().total, 2);
}

#[test]
fn increment_is_refused_at_the_largest_count() {
    let mut tags = BookmarkTags::new(vec![record("cat", None, u64::MAX)]);
    assert_eq!(tags.increment("cat"), Err(StoreError::CounterOverflow));
    assert_eq!(tags.get("cat").unwrap().total, u64::MAX);
}

#[test]
fn decrement_lowers_an_existing_count_and_ignores_an_absent_tag() {
    let mut tags = BookmarkTags::new(vec![record("cat", None, 3), record("dog", None, 1)]);
    tags.decrement("Cat");
    assert_eq!(tags.get("cat").unwrap().total, 2);
    tags.decrement("bird");
    assert!(tags.get("bird").is_none());
    // The record stays at zero: removing it is the caller's part.
    tags.decrement("dog");
    assert_eq!(tags.get("dog").unwrap().total, 0);
    tags.decrement("dog");
    assert_eq!(tags.get("dog").unwrap().total, 0);
}

#[test]
fn release_removes_the_record_when_the_count_would_reach_zero() {
    let mut tags = BookmarkTags::new(vec![record("cat", None, 2), record("dog", None, 1)]);
    tags.release_exact(&"cat".to_string());
    assert_eq!(tags.get("cat").unwrap().total, 1);
    tags.release_exact(&"cat".to_string());
    assert!(tags.get("cat").is_none());
    tags.release_exact(&"cat".to_string());
    assert!(tags.get("cat").is_none());
    assert_eq!(tags.get("dog").unwrap().total, 1);
}

#[test]
fn delete_and_set_name_work_on_the_lower_case_id() {
    let mut tags = BookmarkTags::new(vec![record("猫", None, 2), record("dog", None, 1)]);
    tags.set_name("猫", "Cat");
    assert_eq!(tags.get("猫").unwrap().name, Some("cat".to_string()));
    tags.set_name("bird", "x");
    assert!(tags.get("bird").is_none());
    tags.delete("DOG");
    assert!(tags.get("dog").is_none());
    assert_eq!(tags.get("猫").unwrap().total, 2);
}

#[test]
fn resolve_from_name_or_id_finds_by_id_and_by_label_highest_count_first() {
    let tags = BookmarkTags::new(vec![
        record("猫", Some("cat"), 2),
        record("cat", None, 7),
        record("ねこ", Some("cat"), 7),
        record("catgirl", None, 50),
        record("dog", Some("cats"), 9),
    ]);
    let found = tags.resolve_from_name_or_id("cat");
    assert_eq!(ids(&found), vec!["cat", "ねこ", "猫"]);
    assert!(tags.resolve_from_name_or_id("Cat").is_empty());
}

#[test]
fn resolve_from_name_or_id_gives_at_most_fifty_records() {
    let records: Vec<BookmarkTag> = (0..60u64).map(|n| record(&format!("t{n}"), Some("same"), n)).collect();
    let tags = BookmarkTags::new(records);
    let found = tags.resolve_from_name_or_id("same");
    assert_eq!(found.len(), 50);
    assert_eq!(found[0].id, "t59");
    assert_eq!(found[49].id, "t10");
}

#[test]
fn find_means_records_that_hold_a_term_and_all_records_without_terms() {
    let tags = BookmarkTags::new(vec![
        record("catgirl", None, 1),
        record("猫", Some("cat"), 5),
        record("dog", None, 3),
        record("bird", Some("tori"), 4),
    ]);
    assert_eq!(ids(&tags.find("CAT")), vec!["猫", "catgirl"]);
    assert_eq!(ids(&tags.find("  ")), vec!["猫", "bird", "dog", "catgirl"]);
    assert_eq!(ids(&tags.find("tor og")), vec!["bird", "dog"]);
    assert!(tags.find("fish").is_empty());
}

#[test]
fn search_conditions_are_four_for_each_term_with_the_term_escaped() {
    let conditions = search_conditions("C++  r-18");
    assert_eq!(conditions.len(), 8);
    assert!(matches!(&conditions[0], TagCondition::IdIs(text) if text == "c++"));
    assert!(matches!(&conditions[1], TagCondition::NameIs(text) if text == "c++"));
    assert!(matches!(&conditions[2], TagCondition::IdLike(text) if text == "c\\+\\+"));
    assert!(matches!(&conditions[3], TagCondition::NameLike(text) if text == "c\\+\\+"));
    assert!(matches!(&conditions[6], TagCondition::IdLike(text) if text == "r\\-18"));
    assert!(search_conditions(" \t").is_empty());
}

#[test]
fn rank_orders_by_falling_count_and_keeps_equal_counts_in_order() {
    let sorted = rank(vec![
        record("a", None, 1),
        record("b", None, 3),
        record("c", None, 1),
        record("d", None, 3),
        record("e", None, 2),
    ]);
    assert_eq!(ids(&sorted), vec!["b", "d", "e", "a", "c"]);
}
