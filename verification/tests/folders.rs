use drorg::app::{Application, ApplicationOptions, SyncOption};
use drorg::records::{Doc, NewAccountAssociation, NewDoc, NewLink, Timestamp};
use drorg::resolve::ResolveError;
use drorg::store::MirrorStore;

const FOLDER: &str = "application/vnd.google-apps.folder";

fn add(store: &mut MirrorStore, id: &str, mime: &str, secs: i64) {
    store.upsert_document(&NewDoc {
        id,
        name: id,
        mime_type: mime,
        starred: false,
        trashed: false,
        modified_time: Timestamp { secs, nanos: 0 },
    });
}

fn ids(docs: &[Doc]) -> Vec<&str> {
    docs.iter().map(|d| d.id.as_str()).collect()
}

fn app_of(store: MirrorStore) -> Application {
    Application::initialize(ApplicationOptions { sync: SyncOption::No }, store)
}

#[test]
fn children_of_every_account_are_merged_most_recent_first() {
    let mut store = MirrorStore::new();
    add(&mut store, "folder", FOLDER, 1);
    add(&mut store, "old", "text/plain", 10);
    add(&mut store, "new", "text/plain", 30);
    add(&mut store, "mid", "text/plain", 20);
    add(&mut store, "elsewhere", "text/plain", 40);
    store.register_account("a@example.com");
    store.register_account("b@example.com");
    store.upsert_account_association(&NewAccountAssociation::new("folder", 1));
    store.upsert_account_association(&NewAccountAssociation::new("folder", 2));
    store.upsert_link(&NewLink::new(1, "folder", "old"));
    store.upsert_link(&NewLink::new(1, "folder", "new"));
    store.upsert_link(&NewLink::new(2, "folder", "new"));
    store.upsert_link(&NewLink::new(2, "folder", "mid"));
    store.upsert_link(&NewLink::new(2, "other", "elsewhere"));
    store.upsert_link(&NewLink::new(3, "folder", "elsewhere"));
    let app = app_of(store);
    let folder = app.store.find_document("folder").unwrap();
    let children = app.folder_children(&folder).unwrap();
    assert_eq!(ids(&children), vec!["new", "mid", "old"]);
}

#[test]
fn folder_without_links_is_empty() {
    let mut store = MirrorStore::new();
    add(&mut store, "folder", FOLDER, 1);
    store.register_account("a@example.com");
    store.upsert_account_association(&NewAccountAssociation::new("folder", 1));
    store.upsert_link(&NewLink::new(1, "parent", "folder"));
    let app = app_of(store);
    let folder = app.store.find_document("folder").unwrap();
    assert_eq!(app.folder_children(&folder), Ok(vec![]));
}

#[test]
fn folder_of_no_account_is_empty() {
    let mut store = MirrorStore::new();
    add(&mut store, "folder", FOLDER, 1);
    add(&mut store, "kid", "", 1);
    store.upsert_link(&NewLink::new(1, "folder", "kid"));
    let app = app_of(store);
    let folder = app.store.find_document("folder").unwrap();
    assert_eq!(app.folder_children(&folder), Ok(vec![]));
}

#[test]
fn child_without_row_is_an_error() {
    let mut store = MirrorStore::new();
    add(&mut store, "folder", FOLDER, 1);
    store.register_account("a@example.com");
    store.upsert_account_association(&NewAccountAssociation::new("folder", 1));
    store.upsert_link(&NewLink::new(1, "folder", "unlisted"));
    let app = app_of(store);
    let folder = app.store.find_document("folder").unwrap();
    assert_eq!(app.folder_children(&folder), Err(ResolveError::MissingDocument));
}

#[test]
fn accounts_get_the_next_id() {
    let mut store = MirrorStore::new();
    assert_eq!(store.register_account("a@example.com"), Some(1));
    assert_eq!(store.register_account("b@example.com"), Some(2));
    assert_eq!(store.register_account("a@example.com"), Some(1));
    assert!(store.add_account(10, "j@example.com"));
    assert_eq!(store.register_account("c@example.com"), Some(11));
    assert_eq!(store.all_accounts().len(), 4);
    assert!(store.add_account(i32::MAX, "last@example.com"));
    assert_eq!(store.register_account("late@example.com"), None);
    assert_eq!(store.register_account("last@example.com"), Some(i32::MAX));
    assert_eq!(store.all_accounts().len(), 5);
}

#[test]
fn documents_are_looked_up_by_id_in_order() {
    let mut store = MirrorStore::new();
    add(&mut store, "a", "", 1);
    add(&mut store, "b", "", 2);
    let app = app_of(store);
    let wanted = vec!["b".to_string(), "a".to_string(), "b".to_string()];
    assert_eq!(ids(&app.ids_to_docs(&wanted)), vec!["b", "a", "b"]);
    assert_eq!(ids(&app.try_ids_to_docs(&wanted).unwrap()), vec!["b", "a", "b"]);
    assert_eq!(app.try_ids_to_docs(&vec!["a".to_string(), "zz".to_string()]), None);
    assert_eq!(app.try_ids_to_docs(&vec![]), Some(vec![]));
}
