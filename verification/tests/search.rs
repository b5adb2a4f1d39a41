use bmm::db::bookmark::{create_bookmark, delete_bookmarks};
use bmm::db::reconcile::update_bookmark_tags;
use bmm::db::search::{get_tags_per_bookmark, has_all_tags, resolve_names, search_bookmarks};
use bmm::db::store::Store;
use bmm::models::NewBookmark;
use bmm::text::{chars_of, contains_chars, contains_text, occurs_at};
use time::OffsetDateTime;

fn at(seconds: i64) -> OffsetDateTime {
    OffsetDateTime::from_unix_timestamp(seconds).unwrap()
}

fn names(list: &[&str]) -> Vec<String> {
    list.iter().map(|s| s.to_string()).collect()
}

fn add(db: &mut Store, title: &str, tags: &[&str]) -> i32 {
    let new = NewBookmark { title: title.to_string(), url: format!("https://example.com/{}", title) };
    let row = create_bookmark(db, new, at(100)).unwrap();
    update_bookmark_tags(db, &row, &names(tags), at(100)).unwrap();
    row.id
}

fn ids(db: &Store, title: &str, tags: &[&str], before: i32, limit: i64) -> Vec<i32> {
    search_bookmarks(db, title, &names(tags), before, limit).into_iter().map(|(m, _)| m.id).collect()
}

#[test]
fn title_search_bookmark() {
    let mut db = Store::new();
    let new_bookmark = NewBookmark {
        title: "test".to_string(),
        url: "https://example.com".to_string(),
    };
    create_bookmark(&mut db, new_bookmark, at(1_700_000_000)).expect("Error saving new bookmark");

    let results = search_bookmarks(&db, "test", &vec![], 0, i64::MAX);

    assert!(results.len() > 0);
}

#[test]
fn every_wanted_tag_must_be_carried() {
    let mut db = Store::new();
    let b1 = add(&mut db, "B1", &["x", "y"]);
    let b2 = add(&mut db, "B2", &["x"]);
    let b3 = add(&mut db, "B3", &["y"]);
    assert_eq!(ids(&db, "", &["x", "y"], 0, 10), vec![b1]);
    assert_eq!(ids(&db, "", &["y", "x", "y"], 0, 10), vec![b1]);
    assert_eq!(ids(&db, "", &["x"], 0, 10), vec![b2, b1]);
    assert_eq!(ids(&db, "", &["y"], 0, 10), vec![b3, b1]);
    assert_eq!(ids(&db, "", &[], 0, 10), vec![b3, b2, b1]);
    assert!(ids(&db, "", &["x", "unknown"], 0, 10).is_empty());
    assert!(ids(&db, "", &["unknown"], 0, 10).is_empty());
}

#[test]
fn pages_follow_the_cursor_downwards() {
    let mut db = Store::new();
    for title in ["a", "b", "c", "d", "e"] {
        add(&mut db, title, &[]);
    }
    assert_eq!(ids(&db, "", &[], 0, 2), vec![5, 4]);
    assert_eq!(ids(&db, "", &[], 4, 2), vec![3, 2]);
    assert_eq!(ids(&db, "", &[], 2, 2), vec![1]);
    assert!(ids(&db, "", &[], 1, 2).is_empty());
    assert!(ids(&db, "", &[], -3, 2).is_empty());
    assert_eq!(ids(&db, "", &[], 99, 10), vec![5, 4, 3, 2, 1]);
    assert_eq!(ids(&db, "", &[], 0, 5), vec![5, 4, 3, 2, 1]);
    assert_eq!(ids(&db, "", &[], 0, 1), vec![5]);
    assert!(ids(&db, "", &[], 0, 0).is_empty());
    assert!(ids(&db, "", &[], 0, -7).is_empty());
    assert_eq!(ids(&db, "", &[], 0, i64::MAX), vec![5, 4, 3, 2, 1]);
}

#[test]
fn a_deleted_bookmark_leaves_the_results_and_stays_in_the_store() {
    let mut db = Store::new();
    add(&mut db, "Weather today", &["weather", "global"]);
    add(&mut db, "Weather west", &["weather", "west"]);
    assert_eq!(ids(&db, "Weather", &["weather"], 0, 10), vec![2, 1]);
    assert_eq!(delete_bookmarks(&mut db, vec![2], at(200)), 1);
    assert_eq!(ids(&db, "Weather", &["weather"], 0, 10), vec![1]);
    assert!(ids(&db, "", &["west"], 0, 10).is_empty());
    assert_eq!(db.bookmark_count(), 2);
    assert_eq!(db.link_count(), 4);
}

#[test]
fn an_untagged_bookmark_is_found_by_no_tag() {
    let mut db = Store::new();
    let b = add(&mut db, "one", &["anything", "else"]);
    add(&mut db, "two", &["anything"]);
    let row = db.bookmark(1).unwrap().clone();
    update_bookmark_tags(&mut db, &row, &vec![], at(200)).unwrap();
    assert_eq!(ids(&db, "", &["anything"], 0, 10), vec![2]);
    assert!(ids(&db, "", &["else"], 0, 10).is_empty());
    assert_eq!(ids(&db, "", &[], 0, 10), vec![2, b]);
}

#[test]
fn titles_match_by_substring_with_case_respected() {
    let mut db = Store::new();
    add(&mut db, "Weather in Paris", &[]);
    add(&mut db, "weather in Rome", &[]);
    add(&mut db, "Sports", &[]);
    assert_eq!(ids(&db, "eather", &[], 0, 10), vec![2, 1]);
    assert_eq!(ids(&db, "Weather", &[], 0, 10), vec![1]);
    assert_eq!(ids(&db, "in R", &[], 0, 10), vec![2]);
    assert_eq!(ids(&db, "", &[], 0, 10), vec![3, 2, 1]);
    assert!(ids(&db, "Weather in Paris!", &[], 0, 10).is_empty());
    assert!(ids(&db, "%", &[], 0, 10).is_empty());
}

#[test]
fn filters_combine() {
    let mut db = Store::new();
    add(&mut db, "Weather today", &["weather", "global"]);
    add(&mut db, "Weather west", &["weather", "west"]);
    add(&mut db, "Weather east", &["weather"]);
    add(&mut db, "News", &["global"]);
    assert_eq!(ids(&db, "Weather", &[], 0, 10), vec![3, 2, 1]);
    assert_eq!(ids(&db, "Weather", &[], 0, 2), vec![3, 2]);
    assert_eq!(ids(&db, "Weather", &[], 2, 2), vec![1]);
    assert_eq!(ids(&db, "", &["global"], 0, 10), vec![4, 1]);
    assert_eq!(ids(&db, "Weather", &["global"], 0, 10), vec![1]);
    assert!(ids(&db, "", &["global", "west"], 0, 10).is_empty());
    assert_eq!(ids(&db, "", &["weather"], 0, 1), vec![3]);
    assert_eq!(ids(&db, "", &["weather"], 3, 3), vec![2, 1]);
}

#[test]
fn results_carry_their_tags_in_association_order() {
    let mut db = Store::new();
    add(&mut db, "one", &["b", "a"]);
    add(&mut db, "two", &[]);
    add(&mut db, "three", &["a", "c", "b"]);
    let found = search_bookmarks(&db, "", &vec![], 0, 10);
    assert_eq!(found.len(), 3);
    let tags: Vec<Vec<String>> =
        found.iter().map(|(_, tags)| tags.iter().map(|t| t.name.clone()).collect()).collect();
    assert_eq!(tags, vec![names(&["a", "c", "b"]), vec![], names(&["b", "a"])]);
    let tag_ids: Vec<i32> = found[0].1.iter().map(|t| t.id).collect();
    assert_eq!(tag_ids, vec![2, 3, 1]);
    assert_eq!(found[2].0.title, "one");
    assert_eq!(found[2].0.url, "https://example.com/one");
}

#[test]
fn tag_lookup_passes_over_rows_that_are_not_live() {
    let mut db = Store::new();
    add(&mut db, "one", &["a"]);
    add(&mut db, "two", &["b", "a"]);
    add(&mut db, "three", &[]);
    delete_bookmarks(&mut db, vec![1], at(200));
    let mut stranger = db.bookmark(1).unwrap().clone();
    stranger.id = 40;
    let batch = vec![
        db.bookmark(2).unwrap().clone(),
        db.bookmark(1).unwrap().clone(),
        stranger,
        db.bookmark(3).unwrap().clone(),
        db.bookmark(2).unwrap().clone(),
    ];
    let out = get_tags_per_bookmark(&db, batch);
    let got: Vec<(i32, Vec<String>)> = out
        .iter()
        .map(|(m, tags)| (m.id, tags.iter().map(|t| t.name.clone()).collect()))
        .collect();
    assert_eq!(got, vec![(2, names(&["b", "a"])), (3, vec![]), (2, names(&["b", "a"]))]);
    assert!(get_tags_per_bookmark(&db, vec![]).is_empty());
}

#[test]
fn names_resolve_to_ids_or_not_at_all() {
    let mut db = Store::new();
    add(&mut db, "one", &["a", "b"]);
    assert_eq!(resolve_names(&db, &names(&["b", "a", "b"])), Some(vec![2, 1, 2]));
    assert_eq!(resolve_names(&db, &names(&["b", "c"])), None);
    assert_eq!(resolve_names(&db, &vec![]), Some(vec![]));
    assert!(has_all_tags(&db, 1, &vec![1, 2, 1]));
    assert!(has_all_tags(&db, 1, &vec![]));
    assert!(!has_all_tags(&db, 1, &vec![1, 3]));
    assert!(!has_all_tags(&db, 2, &vec![1]));
}

#[test]
fn text_is_matched_character_by_character() {
    assert!(contains_text("hello world", "lo w"));
    assert!(contains_text("hello world", ""));
    assert!(contains_text("", ""));
    assert!(contains_text("hello", "hello"));
    assert!(!contains_text("hello", "hello!"));
    assert!(!contains_text("hello", "Hello"));
    assert!(!contains_text("", "a"));
    assert!(contains_text("caf\u{e9} cr\u{e8}me", "\u{e9} c"));
    assert!(!contains_text("caf\u{e9}", "e"));
    assert_eq!(chars_of("a\u{e9}z"), vec!['a', '\u{e9}', 'z']);
    let hay = chars_of("abcabd");
    assert!(occurs_at(&hay, &chars_of("abd"), 3));
    assert!(!occurs_at(&hay, &chars_of("abd"), 0));
    assert!(!occurs_at(&hay, &chars_of("abd"), 4));
    assert!(!occurs_at(&hay, &chars_of("a"), 6));
    assert!(occurs_at(&hay, &chars_of(""), 6));
    assert!(!occurs_at(&hay, &chars_of(""), 7));
    assert!(contains_chars(&hay, &chars_of("cab")));
    assert!(!contains_chars(&hay, &chars_of("cad")));
}
