use bmm::db::bookmark::{create_bookmark, delete_bookmarks, update_bookmark, ModifyBookmark};
use bmm::db::reconcile::{
    can_name, difference, distinct_names, is_live, tag_diff, update_bookmark_tags,
};
use bmm::db::store::{Store, StoreError};
use bmm::db::tag::{
    associate, can_link, dissociate, ensure_tags, find_tag, holds_id, holds_name, is_linked,
    missing_names, tag_ids_of, tags_of,
};
use bmm::models::{Bookmark, NewBookmark};
use time::OffsetDateTime;

fn at(seconds: i64) -> OffsetDateTime {
    OffsetDateTime::from_unix_timestamp(seconds).unwrap()
}

fn names(list: &[&str]) -> Vec<String> {
    list.iter().map(|s| s.to_string()).collect()
}

fn add(db: &mut Store, title: &str) -> Bookmark {
    let new = NewBookmark { title: title.to_string(), url: format!("https://example.com/{}", title) };
    create_bookmark(db, new, at(100)).unwrap()
}

fn tag_names(db: &Store, id: i32) -> Vec<String> {
    tags_of(db, id).into_iter().map(|t| t.name).collect()
}

#[test]
fn models_create_bookmark() {
    let mut db = Store::new();

    let new_bookmark = NewBookmark {
        title: "test".to_string(),
        url: "https://example.com".to_string(),
    };

    let m = create_bookmark(&mut db, new_bookmark, at(1_700_000_000))
        .expect("Error saving new bookmark");

    assert!(m.id > 0);
}

#[test]
fn new_rows_are_live_and_numbered_in_sequence() {
    let mut db = Store::new();
    let first = add(&mut db, "one");
    let second = add(&mut db, "two");
    assert_eq!(first.id, 1);
    assert_eq!(second.id, 2);
    assert_eq!(first.title, "one");
    assert_eq!(first.url, "https://example.com/one");
    assert_eq!(first.created_at, at(100));
    assert_eq!(first.updated_at, at(100));
    assert_eq!(first.deleted_at, None);
    assert_eq!(db.bookmark_count(), 2);
    assert_eq!(db.bookmark(2).unwrap().title, "two");
    assert!(is_live(&db, 1));
    assert!(!is_live(&db, 3));
    assert!(!is_live(&db, 0));
    assert!(db.bookmark(3).is_none());
    assert!(db.bookmark(0).is_none());
    assert!(db.tag(1).is_none());
    assert!(db.links().is_empty());
}

#[test]
fn update_patches_the_row_and_stamps_it() {
    let mut db = Store::new();
    add(&mut db, "one");
    let patch = ModifyBookmark { title: None, url: Some("https://one.example".to_string()) };
    let row = update_bookmark(&mut db, 1, patch, at(200)).unwrap();
    assert_eq!(row.id, 1);
    assert_eq!(row.title, "one");
    assert_eq!(row.url, "https://one.example");
    assert_eq!(row.created_at, at(100));
    assert_eq!(row.updated_at, at(200));
    assert_eq!(db.bookmark(1).unwrap().url, "https://one.example");
    let patch = ModifyBookmark { title: Some("x".to_string()), url: None };
    assert!(update_bookmark(&mut db, 2, patch, at(300)).is_none());
    assert_eq!(db.bookmark(1).unwrap().title, "one");
    assert_eq!(db.bookmark(1).unwrap().updated_at, at(200));
}

#[test]
fn deleting_the_same_id_twice_counts_one_then_zero() {
    let mut db = Store::new();
    add(&mut db, "one");
    add(&mut db, "two");
    assert_eq!(delete_bookmarks(&mut db, vec![2], at(200)), 1);
    assert_eq!(delete_bookmarks(&mut db, vec![2], at(300)), 0);
    assert_eq!(db.bookmark(2).unwrap().deleted_at, Some(at(200)));
    assert_eq!(db.bookmark(2).unwrap().updated_at, at(200));
    assert_eq!(db.bookmark(2).unwrap().created_at, at(100));
    assert_eq!(db.bookmark(1).unwrap().deleted_at, None);
    assert_eq!(db.bookmark(1).unwrap().updated_at, at(100));
    assert_eq!(db.bookmark_count(), 2);
}

#[test]
fn delete_counts_each_live_row_once() {
    let mut db = Store::new();
    add(&mut db, "one");
    add(&mut db, "two");
    add(&mut db, "three");
    assert_eq!(delete_bookmarks(&mut db, vec![3, 3, 9, 0, -1, 1], at(200)), 2);
    assert_eq!(delete_bookmarks(&mut db, vec![], at(300)), 0);
    assert_eq!(delete_bookmarks(&mut db, vec![1, 2, 3], at(400)), 1);
    assert_eq!(db.bookmark(1).unwrap().deleted_at, Some(at(200)));
    assert_eq!(db.bookmark(2).unwrap().deleted_at, Some(at(400)));
    assert_eq!(db.bookmark(3).unwrap().deleted_at, Some(at(200)));
}

#[test]
fn asking_twice_for_the_same_names_gives_one_tag_each() {
    let mut db = Store::new();
    let first = ensure_tags(&mut db, &names(&["a", "a", "b"])).unwrap();
    let second = ensure_tags(&mut db, &names(&["a", "a", "b"])).unwrap();
    assert_eq!(db.tag_count(), 2);
    assert_eq!(db.tag(1).unwrap().name, "a");
    assert_eq!(db.tag(2).unwrap().name, "b");
    let ids: Vec<i32> = first.iter().map(|t| t.id).collect();
    assert_eq!(ids, vec![1, 1, 2]);
    let ids: Vec<i32> = second.iter().map(|t| t.id).collect();
    assert_eq!(ids, vec![1, 1, 2]);
    assert_eq!(second[2].name, "b");
}

#[test]
fn vocabulary_keeps_known_tags_and_appends_new_ones() {
    let mut db = Store::new();
    ensure_tags(&mut db, &names(&["b", "a"])).unwrap();
    assert_eq!(missing_names(&db, &names(&["c", "a", "c", "d"])), names(&["c", "d"]));
    assert!(can_name(&db, &names(&["c", "a", "c", "d"])));
    let tags = ensure_tags(&mut db, &names(&["c", "a", "c", "d"])).unwrap();
    let ids: Vec<i32> = tags.iter().map(|t| t.id).collect();
    assert_eq!(ids, vec![3, 2, 3, 4]);
    assert_eq!(db.tag_count(), 4);
    assert_eq!(find_tag(&db, &"b".to_string()), Some(1));
    assert_eq!(find_tag(&db, &"d".to_string()), Some(4));
    assert_eq!(find_tag(&db, &"B".to_string()), None);
    assert_eq!(find_tag(&db, &"".to_string()), None);
    assert!(ensure_tags(&mut db, &vec![]).unwrap().is_empty());
    assert_eq!(db.tag_count(), 4);
}

#[test]
fn associate_inserts_missing_pairs_only() {
    let mut db = Store::new();
    add(&mut db, "one");
    add(&mut db, "two");
    ensure_tags(&mut db, &names(&["a", "b", "c"])).unwrap();
    assert_eq!(associate(&mut db, 1, &vec![2, 1]), Ok(()));
    assert_eq!(associate(&mut db, 1, &vec![1, 3, 3]), Ok(()));
    assert_eq!(associate(&mut db, 2, &vec![3]), Ok(()));
    assert_eq!(tag_ids_of(&db, 1), vec![2, 1, 3]);
    assert_eq!(tag_ids_of(&db, 2), vec![3]);
    assert_eq!(tag_names(&db, 1), names(&["b", "a", "c"]));
    assert_eq!(db.link_count(), 4);
    assert_eq!(db.links()[0].bookmark_id, 1);
    assert_eq!(db.links()[0].tag_id, 2);
    assert!(is_linked(&db, 1, 3));
    assert!(!is_linked(&db, 2, 1));
}

#[test]
fn associate_refuses_rows_that_do_not_exist() {
    let mut db = Store::new();
    add(&mut db, "one");
    ensure_tags(&mut db, &names(&["a"])).unwrap();
    assert!(can_link(&db, 1, &vec![1]));
    assert!(!can_link(&db, 1, &vec![1, 2]));
    assert!(!can_link(&db, 2, &vec![1]));
    assert!(can_link(&db, 2, &vec![]));
    assert_eq!(associate(&mut db, 1, &vec![1, 2]), Err(StoreError::Storage));
    assert_eq!(associate(&mut db, 2, &vec![1]), Err(StoreError::Storage));
    assert_eq!(associate(&mut db, 1, &vec![0]), Err(StoreError::Storage));
    assert_eq!(associate(&mut db, 9, &vec![]), Ok(()));
    assert_eq!(db.link_count(), 0);
}

#[test]
fn dissociate_removes_the_named_pairs_only() {
    let mut db = Store::new();
    add(&mut db, "one");
    add(&mut db, "two");
    ensure_tags(&mut db, &names(&["a", "b", "c"])).unwrap();
    associate(&mut db, 1, &vec![1, 2, 3]).unwrap();
    associate(&mut db, 2, &vec![2]).unwrap();
    dissociate(&mut db, 1, &vec![2, 7]);
    assert_eq!(tag_ids_of(&db, 1), vec![1, 3]);
    assert_eq!(tag_ids_of(&db, 2), vec![2]);
    dissociate(&mut db, 1, &vec![2]);
    dissociate(&mut db, 3, &vec![1]);
    dissociate(&mut db, 1, &vec![]);
    assert_eq!(tag_ids_of(&db, 1), vec![1, 3]);
    assert_eq!(db.link_count(), 3);
    assert_eq!(db.tag_count(), 3);
}

#[test]
fn diff_is_what_is_wanted_and_missing_and_what_is_there_and_unwanted() {
    let (to_add, to_remove) = tag_diff(&vec![1, 2, 3], &vec![3, 4, 5]);
    assert_eq!(to_add, vec![4, 5]);
    assert_eq!(to_remove, vec![1, 2]);
    let (to_add, to_remove) = tag_diff(&vec![], &vec![2, 1]);
    assert_eq!(to_add, vec![2, 1]);
    assert!(to_remove.is_empty());
    let (to_add, to_remove) = tag_diff(&vec![2, 1], &vec![1, 2]);
    assert!(to_add.is_empty());
    assert!(to_remove.is_empty());
    assert_eq!(difference(&vec![5, 6, 5, 7], &vec![6]), vec![5, 5, 7]);
    assert!(holds_id(&vec![5, 6], 6));
    assert!(!holds_id(&vec![5, 6], 7));
}

#[test]
fn repeated_names_count_once() {
    assert_eq!(distinct_names(&names(&["a", "a", "b", "a", "c", "b"])), names(&["a", "b", "c"]));
    assert!(distinct_names(&vec![]).is_empty());
    assert!(holds_name(&names(&["a", "b"]), &"b".to_string()));
    assert!(!holds_name(&names(&["a", "b"]), &"ab".to_string()));
}

#[test]
fn reconciling_twice_leaves_the_second_list() {
    let mut db = Store::new();
    let b = add(&mut db, "one");
    let other = add(&mut db, "two");
    update_bookmark_tags(&mut db, &other, &names(&["x", "keep"]), at(150)).unwrap();
    update_bookmark_tags(&mut db, &b, &names(&["x", "y", "z"]), at(200)).unwrap();
    assert_eq!(tag_names(&db, 1), names(&["x", "y", "z"]));
    update_bookmark_tags(&mut db, &b, &names(&["z", "w", "x", "w"]), at(300)).unwrap();
    assert_eq!(tag_names(&db, 1), names(&["x", "z", "w"]));
    assert_eq!(tag_names(&db, 2), names(&["x", "keep"]));
    update_bookmark_tags(&mut db, &b, &names(&["q"]), at(400)).unwrap();
    assert_eq!(tag_names(&db, 1), names(&["q"]));
    assert_eq!(db.tag_count(), 6);
    assert_eq!(db.bookmark(1).unwrap().updated_at, at(400));
}

#[test]
fn reconciling_stamps_the_row_only_when_the_tags_change() {
    let mut db = Store::new();
    let b = add(&mut db, "one");
    update_bookmark_tags(&mut db, &b, &names(&["x", "y"]), at(200)).unwrap();
    assert_eq!(db.bookmark(1).unwrap().updated_at, at(200));
    update_bookmark_tags(&mut db, &b, &names(&["y", "x", "y"]), at(300)).unwrap();
    assert_eq!(db.bookmark(1).unwrap().updated_at, at(200));
    assert_eq!(tag_ids_of(&db, 1), vec![1, 2]);
    update_bookmark_tags(&mut db, &b, &names(&["y"]), at(400)).unwrap();
    assert_eq!(db.bookmark(1).unwrap().updated_at, at(400));
    assert_eq!(db.bookmark(1).unwrap().created_at, at(100));
}

#[test]
fn reconciling_with_no_names_takes_every_tag() {
    let mut db = Store::new();
    let b = add(&mut db, "one");
    update_bookmark_tags(&mut db, &b, &names(&["x", "y"]), at(200)).unwrap();
    assert_eq!(update_bookmark_tags(&mut db, &b, &vec![], at(300)), Ok(()));
    assert!(tag_ids_of(&db, 1).is_empty());
    assert_eq!(db.link_count(), 0);
    assert_eq!(db.tag_count(), 2);
}

#[test]
fn reconciling_misses_a_bookmark_that_is_not_live() {
    let mut db = Store::new();
    let b = add(&mut db, "one");
    update_bookmark_tags(&mut db, &b, &names(&["x"]), at(200)).unwrap();
    delete_bookmarks(&mut db, vec![1], at(300));
    assert_eq!(update_bookmark_tags(&mut db, &b, &names(&["y"]), at(400)), Err(StoreError::NotFound));
    assert_eq!(tag_ids_of(&db, 1), vec![1]);
    assert_eq!(db.tag_count(), 1);
    let mut ghost = b.clone();
    ghost.id = 5;
    assert_eq!(update_bookmark_tags(&mut db, &ghost, &vec![], at(400)), Err(StoreError::NotFound));
}
