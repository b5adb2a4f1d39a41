use bmm::api::bookmark::{self, CreateBookmarkPayload, Error, Handler, Method};
use bmm::db::bookmark::ModifyBookmark;
use bmm::db::store::Store;
use time::OffsetDateTime;

fn at(seconds: i64) -> OffsetDateTime {
    OffsetDateTime::from_unix_timestamp(seconds).unwrap()
}

fn rust_payload() -> CreateBookmarkPayload {
    CreateBookmarkPayload {
        url: "https://www.rust-lang.org".to_string(),
        title: "Rust".to_string(),
        tags: vec!["rust".to_string(), "programming".to_string()],
    }
}

fn random_payload(seed: u32) -> CreateBookmarkPayload {
    CreateBookmarkPayload {
        url: format!("https://example.com/{}", seed.wrapping_mul(2654435761)),
        title: format!("bookmark-{}", seed.wrapping_mul(40503)),
        tags: vec!["rust".to_string(), "programming".to_string()],
    }
}

#[test]
fn bookmark_create_bookmark() {
    let mut db = Store::new();
    let payload = rust_payload();
    let response = bookmark::create_bookmark(&mut db, rust_payload(), at(1_700_000_000));
    assert!(response.is_ok());
    let added = response.unwrap();

    assert!(added.id > 0);
    assert_eq!(added.title, payload.title);
    assert_eq!(added.url, payload.url);
}

#[test]
fn delete_bookmark() {
    let mut db = Store::new();
    let response = bookmark::create_bookmark(&mut db, rust_payload(), at(1_700_000_000));
    assert!(response.is_ok());
    let added = response.unwrap();

    let response = bookmark::delete_bookmark(&mut db, added.id, at(1_700_000_100));
    assert!(response.is_ok());

    let response = bookmark::delete_bookmark(&mut db, added.id, at(1_700_000_200));
    assert!(matches!(response, Err(Error::NotFound(_))));
}

#[test]
fn unsearchable_deleted_bookmark() {
    let mut db = Store::new();
    let payload = random_payload(7);
    let title = payload.title.clone();
    let response = bookmark::create_bookmark(&mut db, payload, at(1_700_000_000));
    assert!(response.is_ok());
    let added = response.unwrap();

    let results = bookmark::search_bookmarks(&db, Some(title.as_str()), vec![], None, None);
    assert!(results.len() == 1, "Expected 1 bookmarks, got {}", results.len());

    let response = bookmark::delete_bookmark(&mut db, added.id, at(1_700_000_100));
    assert!(response.is_ok());

    let results = bookmark::search_bookmarks(&db, Some(title.as_str()), vec![], None, None);
    assert!(results.len() == 0, "Expected 0 bookmarks, got {}", results.len());
}

#[test]
fn update_exist_bookmark() {
    let mut db = Store::new();
    let response = bookmark::create_bookmark(&mut db, random_payload(11), at(1_700_000_000));
    assert!(response.is_ok());
    let added = response.unwrap();

    let payload = ModifyBookmark {
        url: Some("https://www.rust-lang.org".to_string()),
        title: Some("Rust Programming Language".to_string()),
    };
    assert_ne!(Some(added.title.clone()), payload.title);
    assert_ne!(Some(added.url.clone()), payload.url);
    let expected = ModifyBookmark { url: payload.url.clone(), title: payload.title.clone() };

    let response = bookmark::update_bookmark(&mut db, added.id, payload, at(1_700_000_100));
    assert!(response.is_ok());
    let updated = response.unwrap();

    assert_eq!(updated.id, added.id);
    assert_eq!(updated.title, expected.title.unwrap());
    assert_eq!(updated.url, expected.url.unwrap());
}

#[test]
fn update_missing_bookmark() {
    let mut db = Store::new();
    let payload = ModifyBookmark {
        url: Some("https://www.rust-lang.org".to_string()),
        title: Some("Rust Programming Language".to_string()),
    };

    let response = bookmark::update_bookmark(&mut db, 99999999, payload, at(1_700_000_000));
    assert!(matches!(response, Err(Error::NotFound(_))));
}

#[test]
fn create_answers_with_the_new_row_and_the_sent_tags() {
    let mut db = Store::new();
    let now = at(1_700_000_000);
    let mut payload = rust_payload();
    payload.tags.push("rust".to_string());
    let added = bookmark::create_bookmark(&mut db, payload, now).unwrap();
    assert_eq!(added.id, 1);
    assert_eq!(added.tags, vec!["rust", "programming", "rust"]);
    assert_eq!(added.created_at, now);
    assert_eq!(added.updated_at, now);
    assert_eq!(added.deleted_at, None);
    assert_eq!(db.bookmark_count(), 1);
    assert_eq!(db.tag_count(), 2);
    assert_eq!(db.link_count(), 2);

    let second = bookmark::create_bookmark(&mut db, rust_payload(), at(1_700_000_001)).unwrap();
    assert_eq!(second.id, 2);
    assert_eq!(db.tag_count(), 2);
    assert_eq!(db.link_count(), 4);
}

#[test]
fn search_shows_tag_names_in_association_order() {
    let mut db = Store::new();
    bookmark::create_bookmark(&mut db, rust_payload(), at(1)).unwrap();
    let found = bookmark::search_bookmarks(&db, None, vec!["programming"], None, None);
    assert_eq!(found.len(), 1);
    assert_eq!(found[0].id, 1);
    assert_eq!(found[0].title, "Rust");
    assert_eq!(found[0].url, "https://www.rust-lang.org");
    assert_eq!(found[0].tags, vec!["rust", "programming"]);
    assert_eq!(found[0].created_at, at(1));
    assert_eq!(found[0].deleted_at, None);
}

#[test]
fn search_takes_tag_names_as_they_are_given() {
    let mut db = Store::new();
    bookmark::create_bookmark(&mut db, rust_payload(), at(1)).unwrap();
    assert_eq!(bookmark::search_bookmarks(&db, None, vec!["rust"], None, None).len(), 1);
    assert_eq!(bookmark::search_bookmarks(&db, None, vec!["rust", "programming"], None, None).len(), 1);
    assert_eq!(bookmark::search_bookmarks(&db, None, vec!["Rust"], None, None).len(), 0);
    assert_eq!(bookmark::search_bookmarks(&db, None, vec!["rus"], None, None).len(), 0);
    assert_eq!(bookmark::search_bookmarks(&db, None, vec!["rust", "go"], None, None).len(), 0);
}

#[test]
fn search_pages_hold_ten_rows_unless_told_otherwise() {
    let mut db = Store::new();
    for i in 0..12 {
        bookmark::create_bookmark(&mut db, random_payload(i), at(i as i64)).unwrap();
    }
    let page = bookmark::search_bookmarks(&db, None, vec![], None, None);
    let ids: Vec<i32> = page.iter().map(|b| b.id).collect();
    assert_eq!(ids, vec![12, 11, 10, 9, 8, 7, 6, 5, 4, 3]);
    let rest = bookmark::search_bookmarks(&db, None, vec![], Some(3), None);
    let ids: Vec<i32> = rest.iter().map(|b| b.id).collect();
    assert_eq!(ids, vec![2, 1]);
    assert_eq!(bookmark::search_bookmarks(&db, None, vec![], Some(0), Some(20)).len(), 12);
    assert_eq!(bookmark::search_bookmarks(&db, None, vec![], None, Some(0)).len(), 0);
    assert_eq!(bookmark::search_bookmarks(&db, None, vec![], None, Some(-1)).len(), 0);
}

#[test]
fn delete_answers_deleted_and_not_found() {
    let mut db = Store::new();
    bookmark::create_bookmark(&mut db, rust_payload(), at(1)).unwrap();
    assert_eq!(bookmark::delete_bookmark(&mut db, 1, at(2)).unwrap(), "Deleted");
    match bookmark::delete_bookmark(&mut db, 1, at(3)) {
        Err(Error::NotFound(text)) => assert_eq!(text, "Bookmark not found"),
        _ => panic!("a second delete must miss"),
    }
    assert!(matches!(bookmark::delete_bookmark(&mut db, 2, at(3)), Err(Error::NotFound(_))));
    assert!(matches!(bookmark::delete_bookmark(&mut db, 0, at(3)), Err(Error::NotFound(_))));
    assert!(matches!(bookmark::delete_bookmark(&mut db, -5, at(3)), Err(Error::NotFound(_))));
    assert_eq!(db.bookmark_count(), 1);
    assert_eq!(db.bookmark(1).unwrap().deleted_at, Some(at(2)));
}

#[test]
fn update_applies_only_the_fields_that_are_present() {
    let mut db = Store::new();
    bookmark::create_bookmark(&mut db, rust_payload(), at(1)).unwrap();
    let patch = ModifyBookmark { title: Some("The Rust Language".to_string()), url: None };
    let updated = bookmark::update_bookmark(&mut db, 1, patch, at(5)).unwrap();
    assert_eq!(updated.title, "The Rust Language");
    assert_eq!(updated.url, "https://www.rust-lang.org");
    assert_eq!(updated.tags, vec!["rust", "programming"]);
    assert_eq!(updated.created_at, at(1));
    assert_eq!(updated.updated_at, at(5));

    let patch = ModifyBookmark { title: None, url: None };
    let updated = bookmark::update_bookmark(&mut db, 1, patch, at(9)).unwrap();
    assert_eq!(updated.title, "The Rust Language");
    assert_eq!(updated.url, "https://www.rust-lang.org");
    assert_eq!(updated.updated_at, at(9));
}

#[test]
fn update_reaches_a_soft_deleted_bookmark_and_shows_no_tags() {
    let mut db = Store::new();
    bookmark::create_bookmark(&mut db, rust_payload(), at(1)).unwrap();
    bookmark::delete_bookmark(&mut db, 1, at(2)).unwrap();
    let patch = ModifyBookmark { title: None, url: Some("https://rust-lang.org".to_string()) };
    let updated = bookmark::update_bookmark(&mut db, 1, patch, at(3)).unwrap();
    assert_eq!(updated.url, "https://rust-lang.org");
    assert_eq!(updated.deleted_at, Some(at(2)));
    assert_eq!(updated.updated_at, at(3));
    assert!(updated.tags.is_empty());
    assert_eq!(db.link_count(), 2);
}

#[test]
fn update_misses_with_a_message() {
    let mut db = Store::new();
    let patch = ModifyBookmark { title: None, url: None };
    match bookmark::update_bookmark(&mut db, 1, patch, at(1)) {
        Err(Error::NotFound(text)) => assert_eq!(text, "Bookmark not found"),
        _ => panic!("an update of a missing bookmark must miss"),
    }
    assert_eq!(db.bookmark_count(), 0);
}

#[test]
fn route_table_lists_the_four_operations() {
    let routes = bookmark::routes();
    assert_eq!(routes.len(), 4);
    assert_eq!(routes[0].method, Method::Post);
    assert_eq!(routes[0].uri, "/");
    assert_eq!(routes[0].format, Some("application/json"));
    assert_eq!(routes[0].handler, Handler::CreateBookmark);
    assert_eq!(routes[1].method, Method::Get);
    assert_eq!(routes[1].uri, "/?<title>&<tag>&<before>&<limit>");
    assert_eq!(routes[1].format, None);
    assert_eq!(routes[1].handler, Handler::SearchBookmarks);
    assert_eq!(routes[2].method, Method::Delete);
    assert_eq!(routes[2].uri, "/<id>");
    assert_eq!(routes[2].format, None);
    assert_eq!(routes[2].handler, Handler::DeleteBookmark);
    assert_eq!(routes[3].method, Method::Put);
    assert_eq!(routes[3].uri, "/<id>");
    assert_eq!(routes[3].format, Some("application/json"));
    assert_eq!(routes[3].handler, Handler::UpdateBookmark);
}
