use bookmark_mirror::config::{collect_mappings, mapping_of, Config, SensitiveString, TagMapping};
use bookmark_mirror::mongodb::bookmark_tags::BookmarkTags;
use bookmark_mirror::mongodb::{BookmarkTag, MongoDB};
use bookmark_mirror::pixiv::PixivBookmarkPageBodyWork;
use bookmark_mirror::routes::bookmarks::{
    filter_from, handler, parse_terms, record_targets, resolve_filter, resolve_term, target_pattern, Pagination,
    PaginationSort, TagFilter,
};
use bookmark_mirror::routes::Response;

fn mapping(tag: &str, pixiv_tags: &[&str]) -> TagMapping {
    TagMapping { tag: tag.to_string(), pixiv_tags: pixiv_tags.iter().map(|tag| tag.to_string()).collect() }
}

fn record(id: &str, name: Option<&str>, total: u64) -> BookmarkTag {
    BookmarkTag { id: id.to_string(), name: name.map(|name| name.to_string()), total }
}

fn strings(texts: &[&str]) -> Vec<String> {
    texts.iter().map(|text| text.to_string()).collect()
}

#[test]
fn alias_and_plain_term_resolve_to_two_groups() {
    let mappings = vec![mapping("nsfw", &["R-18", "R-18G"])];
    let tags = BookmarkTags::new(Vec::new());
    let filter = resolve_filter("nsfw cat", &mappings, &tags).unwrap();
    assert_eq!(filter.groups, vec![strings(&["r-18", "r-18g"]), strings(&["cat"])]);
}

#[test]
fn empty_query_resolves_to_no_filter() {
    let mappings = vec![mapping("nsfw", &["R-18"])];
    let tags = BookmarkTags::new(Vec::new());
    assert!(resolve_filter("", &mappings, &tags).is_none());
    assert!(resolve_filter(" \t\n ", &mappings, &tags).is_none());
}

#[test]
fn query_is_read_in_lower_case_and_capped_at_five_terms() {
    assert_eq!(parse_terms("  A b\tC\nd  E f g "), strings(&["a", "b", "c", "d", "e"]));
    assert_eq!(parse_terms("One"), strings(&["one"]));
    assert!(parse_terms("").is_empty());
    // Whitespace of other scripts parts terms too.
    assert_eq!(parse_terms("猫\u{3000}犬"), strings(&["猫", "犬"]));
}

#[test]
fn plain_term_stands_for_itself_and_for_the_records_found_under_it() {
    let tags = BookmarkTags::new(vec![
        record("猫", Some("cat"), 2),
        record("cat", None, 9),
        record("ねこ", Some("cat"), 5),
        record("dog", None, 1),
    ]);
    let targets = resolve_term(&"cat".to_string(), &Vec::new(), &tags);
    assert_eq!(targets, strings(&["cat", "ねこ", "猫"]));
    let targets = resolve_term(&"bird".to_string(), &Vec::new(), &tags);
    assert_eq!(targets, strings(&["bird"]));
    assert_eq!(record_targets(&"x".to_string(), &[record("x", None, 1), record("y", Some("x"), 1)].to_vec()), strings(&["x", "y"]));
}

#[test]
fn alias_wins_over_a_tag_record_with_the_same_term() {
    let mappings = vec![mapping("cat", &["Neko"])];
    let tags = BookmarkTags::new(vec![record("cat", None, 9), record("猫", Some("cat"), 2)]);
    assert_eq!(resolve_term(&"cat".to_string(), &mappings, &tags), strings(&["neko"]));
    // Without the alias the records count.
    assert_eq!(resolve_term(&"cat".to_string(), &Vec::new(), &tags), strings(&["cat", "猫"]));
}

#[test]
fn later_mapping_of_a_term_counts() {
    let mappings = vec![mapping("a", &["one"]), mapping("b", &["two"]), mapping("a", &["three", "four"])];
    assert_eq!(mapping_of(&mappings, &"a".to_string()).unwrap().pixiv_tags, strings(&["three", "four"]));
    assert_eq!(mapping_of(&mappings, &"b".to_string()).unwrap().pixiv_tags, strings(&["two"]));
    assert!(mapping_of(&mappings, &"c".to_string()).is_none());
    let collected = collect_mappings(&mappings);
    assert_eq!(collected.len(), 2);
    assert_eq!(collected[0].tag, "a");
    assert_eq!(collected[0].pixiv_tags, strings(&["three", "four"]));
    assert_eq!(collected[1].tag, "b");
    let config = Config {
        pixiv_user_id: 1,
        pixiv_phpsessid: SensitiveString("cookie".to_string()),
        mongodb_uri: SensitiveString("mongodb://host".to_string()),
        bookmark_tag_mappings: collected,
    };
    assert_eq!(config.aliases_of(&"a".to_string()).unwrap().pixiv_tags, strings(&["three", "four"]));
    assert_eq!(config.pixiv_phpsessid.expose(), "cookie");
    assert_eq!(config.mongodb_uri.redacted(), "<redacted>");
}

#[test]
fn filter_admits_a_work_that_satisfies_every_group() {
    let filter = TagFilter { groups: vec![strings(&["r-18", "r-18g"]), strings(&["cat"])] };
    assert!(filter.admits(&strings(&["Cat", "R-18G", "other"])));
    assert!(!filter.admits(&strings(&["cat"])));
    assert!(!filter.admits(&strings(&["r-18", "catgirl"])));
    assert!(!filter.admits(&Vec::new()));
    assert!(TagFilter { groups: Vec::new() }.admits(&Vec::new()));
}

#[test]
fn patterns_anchor_the_escaped_target_and_ignore_case() {
    let pattern = target_pattern(&"r-18 (c++)".to_string());
    assert_eq!(pattern.pattern, "^r\\-18 \\(c\\+\\+\\)$");
    assert_eq!(pattern.options, "i");
    let filter = TagFilter { groups: vec![strings(&["a.b", "c"]), strings(&["猫"])] };
    let patterns = filter.patterns();
    assert_eq!(patterns.len(), 2);
    assert_eq!(patterns[0].len(), 2);
    assert_eq!(patterns[0][0].pattern, "^a\\.b$");
    assert_eq!(patterns[0][1].pattern, "^c$");
    assert_eq!(patterns[1][0].pattern, "^猫$");
    assert_eq!(patterns[1][0].options, "i");
}

#[test]
fn handler_answers_with_the_page_and_the_count_of_all_matches() {
    let mut mirror = MongoDB::new();
    let works: Vec<PixivBookmarkPageBodyWork> = (1..=40u32)
        .rev()
        .map(|n| {
            let tags = if n % 2 == 0 { vec!["R-18".to_string(), "Cat".to_string()] } else { vec!["cat".to_string()] };
            PixivBookmarkPageBodyWork::new(n.to_string(), tags)
        })
        .collect();
    assert_eq!(mirror.bookmarks.insert_many_at(works, 0), Ok(()));
    let mappings = vec![mapping("nsfw", &["R-18", "R-18G"])];
    let query = Pagination {
        tags: "NSFW cat".to_string(),
        offset: 1,
        limit: Pagination::default_limit(),
        sort: Pagination::default_sort(),
    };
    match handler(&query, &mirror, &mappings) {
        Response::Data(body) => {
            assert_eq!(body.total, 20);
            assert_eq!(body.works.len(), 19);
            assert_eq!(body.works[0].id, "38");
            assert_eq!(body.works[18].id, "2");
        },
        Response::Error(text) => panic!("{text}"),
    }
    let all = Pagination { tags: String::new(), offset: 0, limit: 3, sort: PaginationSort::Ascending };
    match handler(&all, &mirror, &mappings) {
        Response::Data(body) => {
            assert_eq!(body.total, 40);
            assert_eq!(body.works.len(), 3);
            assert_eq!(body.works[0].id, "1");
        },
        Response::Error(text) => panic!("{text}"),
    }
}

#[test]
fn pagination_defaults_are_thirty_newest_first() {
    assert_eq!(Pagination::default_limit(), 30);
    assert_eq!(Pagination::default_sort(), PaginationSort::Descending);
}

#[test]
fn no_groups_make_no_filter() {
    assert!(filter_from(Vec::new()).is_none());
    let filter = filter_from(vec![strings(&["a"])]).unwrap();
    assert_eq!(filter.groups, vec![strings(&["a"])]);
}
