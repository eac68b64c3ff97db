use bookmark_mirror::mongodb::{BookmarkTag, MongoDB};
use bookmark_mirror::mongodb::bookmark_tags::BookmarkTags;
use bookmark_mirror::pixiv::bookmark_tags::{PixivBookmarkTag, PixivBookmarkTags, PixivUserTagsBody};
use bookmark_mirror::pixiv::tags::{
    PixivTags, PixivTagsBody, PixivTagsBodyBreadcrumbs, PixivTagsBodyBreadcrumbsSuccessor,
    PixivTagsBodyBreadcrumbsSuccessorTranslation, PixivTagsBodyTagTranslation,
    PixivTagsBodyTagTranslationEntry, PixivTagsBodyTagTranslationWrapper,
};
use bookmark_mirror::pixiv::PixivBookmarkPageBodyWork;
use bookmark_mirror::routes::bookmark_tags::{all_works, TagQuery};
use bookmark_mirror::routes::bookmarks_validate::{settle, Probe};
use bookmark_mirror::routes::Response;
use bookmark_mirror::sync::bookmark_tags::{sync_bookmark_tags, vocabulary_plan, VocabularyAction};
use bookmark_mirror::sync::translations::{
    apply_renames, lacks_label, needs_translation, sync_bookmark_tag_translation,
    sync_bookmark_tag_translations, translations, Rename,
};

fn work(id: &str, tags: &[&str]) -> PixivBookmarkPageBodyWork {
    PixivBookmarkPageBodyWork::new(id.to_string(), tags.iter().map(|tag| tag.to_string()).collect())
}

fn record(id: &str, name: Option<&str>, total: u64) -> BookmarkTag {
    BookmarkTag { id: id.to_string(), name: name.map(|name| name.to_string()), total }
}

fn successor(tag: &str, en: &str) -> PixivTagsBodyBreadcrumbsSuccessor {
    PixivTagsBodyBreadcrumbsSuccessor {
        tag: tag.to_string(),
        translation: PixivTagsBodyBreadcrumbsSuccessorTranslation { en: en.to_string() },
    }
}

fn entry(tag: &str, romaji: &str) -> PixivTagsBodyTagTranslationEntry {
    PixivTagsBodyTagTranslationEntry {
        tag: tag.to_string(),
        translation: PixivTagsBodyTagTranslation { romaji: romaji.to_string() },
    }
}

fn answer(successors: Vec<PixivTagsBodyBreadcrumbsSuccessor>, table: Option<Vec<PixivTagsBodyTagTranslationEntry>>) -> PixivTags {
    PixivTags {
        body: PixivTagsBody {
            tag_translation: match table {
                Some(entries) => PixivTagsBodyTagTranslationWrapper::HashMap(entries),
                None => PixivTagsBodyTagTranslationWrapper::Vec,
            },
            breadcrumbs: PixivTagsBodyBreadcrumbs { successor: successors },
        },
    }
}

fn pairs(renames: &[Rename]) -> Vec<(&str, &str)> {
    renames.iter().map(|rename| (rename.tag.as_str(), rename.name.as_str())).collect()
}

#[test]
fn validation_removes_a_work_that_the_upstream_does_not_have() {
    let mut mirror = MongoDB::new();
    assert_eq!(mirror.bookmarks.insert_many_at(vec![work("2", &["a"]), work("1", &["a"])], 0), Ok(()));
    let id = "2".to_string();
    let response = bookmark_mirror::routes::bookmarks_validate::handler(&id, &mut mirror, Probe::Answered);
    assert!(matches!(response, Response::Data(true)));
    assert!(mirror.bookmarks.contains(&id));

    let response = bookmark_mirror::routes::bookmarks_validate::handler(
        &id,
        &mut mirror,
        Probe::Failed("timed out".to_string()),
    );
    assert!(matches!(&response, Response::Error(text) if text == "timed out"));
    assert!(mirror.bookmarks.contains(&id));

    let response = bookmark_mirror::routes::bookmarks_validate::handler(&id, &mut mirror, Probe::NotFound);
    assert!(matches!(response, Response::Data(false)));
    assert!(!mirror.bookmarks.contains(&id));
    assert_eq!(mirror.bookmarks.tags.get("a").unwrap().total, 1);

    // A work that is not mirrored is not valid, whatever the upstream says.
    let response = bookmark_mirror::routes::bookmarks_validate::handler(&id, &mut mirror, Probe::Answered);
    assert!(matches!(response, Response::Data(false)));
    assert_eq!(mirror.bookmarks.collection.len(), 1);
}

#[test]
fn settle_decides_by_what_the_upstream_said() {
    let decision = settle(Probe::NotFound);
    assert!(decision.remove);
    assert!(matches!(decision.response, Response::Data(false)));
    let decision = settle(Probe::Answered);
    assert!(!decision.remove);
    assert!(matches!(decision.response, Response::Data(true)));
    let decision = settle(Probe::Failed("refused".to_string()));
    assert!(!decision.remove);
    assert!(matches!(&decision.response, Response::Error(text) if text == "refused"));
}

#[test]
fn tag_handler_puts_the_record_of_all_works_first() {
    let mut mirror = MongoDB::new();
    let page = vec![work("3", &["cat"]), work("2", &["cat", "dog"]), work("1", &["bird"])];
    assert_eq!(mirror.bookmarks.insert_many_at(page, 0), Ok(()));
    let query = TagQuery { query: String::new() };
    match bookmark_mirror::routes::bookmark_tags::handler(&query, &mirror) {
        Response::Data(records) => {
            let listed: Vec<(&str, u64)> = records.iter().map(|record| (record.id.as_str(), record.total)).collect();
            assert_eq!(listed, vec![("すべて", 3), ("cat", 2), ("bird", 1), ("dog", 1)]);
            assert_eq!(records[0].name, Some("all".to_string()));
        },
        Response::Error(text) => panic!("{text}"),
    }
    let query = TagQuery { query: "DO".to_string() };
    match bookmark_mirror::routes::bookmark_tags::handler(&query, &mirror) {
        Response::Data(records) => {
            assert_eq!(records.len(), 2);
            assert_eq!(records[1].id, "dog");
        },
        Response::Error(text) => panic!("{text}"),
    }
}

#[test]
fn vocabulary_is_replaced_when_the_upstream_answers() {
    let fetched = || PixivBookmarkTags {
        body: PixivUserTagsBody { public: vec![PixivBookmarkTag { tag: "cat".to_string(), cnt: 4 }] },
    };
    let plan = vocabulary_plan(Some(fetched()));
    assert_eq!(plan.len(), 2);
    assert!(matches!(plan[0], VocabularyAction::DeleteAll));
    assert!(matches!(&plan[1], VocabularyAction::InsertMany(tags) if tags.len() == 1 && tags[0].tag == "cat" && tags[0].cnt == 4));
    assert!(vocabulary_plan(None).is_empty());

    let mut vocabulary = vec![PixivBookmarkTag { tag: "old".to_string(), cnt: 1 }];
    sync_bookmark_tags(&mut vocabulary, None);
    assert_eq!(vocabulary.len(), 1);
    assert_eq!(vocabulary[0].tag, "old");
    sync_bookmark_tags(&mut vocabulary, Some(fetched()));
    assert_eq!(vocabulary.len(), 1);
    assert_eq!(vocabulary[0].tag, "cat");
}

#[test]
fn translations_name_the_related_tags_and_the_tag_itself() {
    let found = answer(
        vec![successor("猫", "Cat"), successor("黒猫", "black  cat")],
        Some(vec![entry("ネコ", "neko")]),
    );
    // The tag is not among the related ones: it gets the romanization of the table.
    let renames = translations(&"ネコ".to_string(), &found);
    assert_eq!(pairs(&renames), vec![("猫", "Cat"), ("黒猫", "black_cat"), ("ネコ", "neko")]);
    // The tag is among the related ones: nothing more is set.
    let renames = translations(&"猫".to_string(), &found);
    assert_eq!(pairs(&renames), vec![("猫", "Cat"), ("黒猫", "black_cat")]);
}

#[test]
fn translations_romanize_a_japanese_tag_that_the_table_does_not_have() {
    let found = answer(Vec::new(), Some(Vec::new()));
    let renames = translations(&"こんにちは世界".to_string(), &found);
    assert_eq!(pairs(&renames), vec![("こんにちは世界", "konnichiha_sekai")]);
    // A tag without kana keeps its own text, and so does every tag where there is no table.
    let renames = translations(&"cat".to_string(), &found);
    assert_eq!(pairs(&renames), vec![("cat", "cat")]);
    let renames = translations(&"日本".to_string(), &found);
    assert_eq!(pairs(&renames), vec![("日本", "日本")]);
    let renames = translations(&"ねこ".to_string(), &answer(Vec::new(), None));
    assert_eq!(pairs(&renames), vec![("ねこ", "ねこ")]);
}

#[test]
fn translation_table_is_read_in_lower_case_and_the_first_entry_counts() {
    let found = answer(Vec::new(), Some(vec![entry("dog", "inu"), entry("CAT", "neko"), entry("cat", "nyan")]));
    let renames = translations(&"cat".to_string(), &found);
    assert_eq!(pairs(&renames), vec![("cat", "neko")]);
}

#[test]
fn only_a_record_without_a_label_is_looked_up() {
    let tags = BookmarkTags::new(vec![record("猫", None, 2), record("dog", Some("inu"), 1)]);
    assert_eq!(needs_translation(&tags, "猫"), Some("猫".to_string()));
    assert_eq!(needs_translation(&tags, "DOG"), None);
    assert_eq!(needs_translation(&tags, "bird"), None);
}

#[test]
fn labels_are_set_in_lower_case_on_the_records_that_exist() {
    let mut tags = BookmarkTags::new(vec![record("ネコ", None, 2), record("猫", None, 1)]);
    let found = answer(vec![successor("猫", "Cat"), successor("犬", "Dog")], Some(vec![entry("ネコ", "Neko")]));
    sync_bookmark_tag_translation(&mut tags, "ネコ", Some(&found));
    assert_eq!(tags.get("猫").unwrap().name, Some("cat".to_string()));
    assert_eq!(tags.get("ネコ").unwrap().name, Some("neko".to_string()));
    assert!(tags.get("犬").is_none());

    // A failed search changes nothing, and neither does a tag that has its label.
    let mut tags = BookmarkTags::new(vec![record("ネコ", None, 2)]);
    sync_bookmark_tag_translation(&mut tags, "ネコ", None);
    assert_eq!(tags.get("ネコ").unwrap().name, None);
    apply_renames(&mut tags, &vec![Rename { tag: "ネコ".to_string(), name: "X".to_string() }]);
    assert_eq!(tags.get("ネコ").unwrap().name, Some("x".to_string()));
    sync_bookmark_tag_translation(&mut tags, "ネコ", Some(&found));
    assert_eq!(tags.get("ネコ").unwrap().name, Some("x".to_string()));
}

#[test]
fn labels_of_a_list_of_tags_are_looked_after_in_order() {
    let mut tags = BookmarkTags::new(vec![record("猫", None, 2), record("ねこ", None, 1), record("dog", None, 1)]);
    let names = vec!["猫".to_string(), "ネコ".to_string(), "ねこ".to_string(), "DOG".to_string()];
    let searches = vec![
        // The answer for the first tag also names the third.
        Some(answer(vec![successor("ねこ", "Kitty cat")], Some(vec![entry("猫", "Neko")]))),
        Some(answer(Vec::new(), None)),
        Some(answer(Vec::new(), Some(vec![entry("ねこ", "late")]))),
    ];
    sync_bookmark_tag_translations(&mut tags, &names, &searches);
    assert_eq!(tags.get("猫").unwrap().name, Some("neko".to_string()));
    // Labelled by the first answer, so its own answer is not used.
    assert_eq!(tags.get("ねこ").unwrap().name, Some("kitty_cat".to_string()));
    // No answer is on record for the last tag.
    assert_eq!(tags.get("dog").unwrap().name, None);
    assert!(lacks_label(&tags.get("dog")));
    assert!(!lacks_label(&tags.get("猫")));
    assert!(!lacks_label(&None));
}

#[test]
fn record_of_all_works_carries_their_number() {
    let record = all_works(412);
    assert_eq!(record.id, "すべて");
    assert_eq!(record.name, Some("all".to_string()));
    assert_eq!(record.total, 412);
}
