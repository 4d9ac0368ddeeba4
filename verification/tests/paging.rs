use drorg::paging::{
    import_call, list_changes, list_files, root_file_call, sync_call, CallOptions, ChangePage,
    FilePage, PageError, Step,
};
use drorg::records::{ChangeRecord, DocumentRecord};
use drorg::scopes::{get_scopes, scopes, CallBuilderExt, ScopeList};
use std::hash::{Hash, Hasher};

fn file(id: &str) -> DocumentRecord {
    DocumentRecord {
        id: Some(id.to_string()),
        name: None,
        mime_type: None,
        starred: None,
        trashed: None,
        modified_time: None,
        parents: None,
    }
}

fn change(id: &str) -> ChangeRecord {
    ChangeRecord { file_id: Some(id.to_string()), removed: Some(true), file: None }
}

fn item_id(step: Step<DocumentRecord>) -> String {
    match step {
        Step::Item(f) => f.id.unwrap(),
        Step::Failed(e) => panic!("failed: {:?}", e),
        Step::Done => panic!("done"),
        Step::Fetch(_) => panic!("fetch"),
    }
}

fn change_id(step: Step<ChangeRecord>) -> String {
    match step {
        Step::Item(c) => c.file_id.unwrap(),
        Step::Failed(e) => panic!("failed: {:?}", e),
        Step::Done => panic!("done"),
        Step::Fetch(_) => panic!("fetch"),
    }
}

fn fetch_of<T>(step: Step<T>) -> CallOptions {
    match step {
        Step::Fetch(c) => c,
        _ => panic!("no fetch"),
    }
}

fn is_done<T>(step: Step<T>) -> bool {
    matches!(step, Step::Done)
}

fn failure<T>(step: Step<T>) -> PageError {
    match step {
        Step::Failed(e) => e,
        _ => panic!("no failure"),
    }
}

const ALL_SCOPES: [&str; 3] = ["https://www.googleapis.com/auth/drive", "profile", "email"];

#[test]
fn file_listing_walks_two_pages() {
    let mut l = list_files(import_call());
    let call = fetch_of(l.next());
    assert_eq!(call.page_token, None);
    assert_eq!(call.spaces, Some("drive".to_string()));
    assert_eq!(
        call.fields,
        "files(id,mimeType,modifiedTime,name,parents,size,starred,trashed),nextPageToken"
    );
    assert_eq!(call.scopes, ALL_SCOPES);
    assert!(!call.include_removed);
    let first = l.page_fetched(Some(FilePage {
        next_page_token: Some("second".to_string()),
        files: Some(vec![file("a"), file("b"), file("c")]),
    }));
    assert_eq!(item_id(first), "a");
    assert_eq!(item_id(l.next()), "b");
    assert_eq!(item_id(l.next()), "c");
    let call = fetch_of(l.next());
    assert_eq!(call.page_token, Some("second".to_string()));
    assert_eq!(call.scopes, ALL_SCOPES);
    let next = l.page_fetched(Some(FilePage { next_page_token: None, files: Some(vec![file("d")]) }));
    assert_eq!(item_id(next), "d");
    assert!(is_done(l.next()));
    assert!(is_done(l.next()));
}

#[test]
fn file_listing_of_nothing_is_done() {
    let mut l = list_files(import_call());
    fetch_of(l.next());
    assert!(is_done(l.page_fetched(Some(FilePage { next_page_token: None, files: Some(vec![]) }))));
    assert!(is_done(l.next()));
}

#[test]
fn file_listing_errors_end_the_walk() {
    let mut l = list_files(import_call());
    fetch_of(l.next());
    assert_eq!(failure(l.page_fetched(None)), PageError::Remote);
    assert!(is_done(l.next()));

    let mut l = list_files(import_call());
    fetch_of(l.next());
    let step = l.page_fetched(Some(FilePage { next_page_token: Some("p".to_string()), files: None }));
    assert_eq!(failure(step), PageError::NoFiles);
    assert!(is_done(l.next()));

    let mut l = list_files(import_call());
    fetch_of(l.next());
    let step =
        l.page_fetched(Some(FilePage { next_page_token: Some("p".to_string()), files: Some(vec![]) }));
    assert_eq!(failure(step), PageError::EmptyPage);
    assert!(is_done(l.next()));
}

#[test]
fn change_listing_walks_to_the_start_token() {
    let mut l = list_changes(sync_call(), "t0");
    let call = fetch_of(l.next());
    assert_eq!(call.page_token, Some("t0".to_string()));
    assert!(call.include_removed && call.include_corpus_removals);
    assert!(call.supports_team_drives && call.include_team_drive_items);
    assert_eq!(call.spaces, Some("drive".to_string()));
    assert_eq!(
        call.fields,
        "changes(file(id,mimeType,modifiedTime,name,parents,size,starred,trashed),fileId,removed),newStartPageToken,nextPageToken"
    );
    let step = l.page_fetched(Some(ChangePage {
        next_page_token: Some("t1".to_string()),
        new_start_page_token: Some("ignored".to_string()),
        changes: Some(vec![change("a"), change("b")]),
    }));
    assert_eq!(change_id(step), "a");
    assert_eq!(change_id(l.next()), "b");
    let call = fetch_of(l.next());
    assert_eq!(call.page_token, Some("t1".to_string()));
    let step = l.page_fetched(Some(ChangePage {
        next_page_token: None,
        new_start_page_token: Some("fresh".to_string()),
        changes: Some(vec![change("c")]),
    }));
    assert_eq!(change_id(step), "c");
    assert!(is_done(l.next()));
    assert_eq!(l.into_change_page_token(), "fresh");
}

#[test]
fn change_listing_without_changes_keeps_up() {
    let mut l = list_changes(sync_call(), "t0");
    fetch_of(l.next());
    let step = l.page_fetched(Some(ChangePage {
        next_page_token: None,
        new_start_page_token: Some("t0b".to_string()),
        changes: Some(vec![]),
    }));
    assert!(is_done(step));
    assert!(is_done(l.next()));
    assert_eq!(l.into_change_page_token(), "t0b");
}

#[test]
fn change_listing_errors_end_the_walk() {
    let mut l = list_changes(sync_call(), "t0");
    fetch_of(l.next());
    assert_eq!(failure(l.page_fetched(None)), PageError::Remote);
    assert!(is_done(l.next()));
    assert_eq!(l.into_change_page_token(), "t0");

    let mut l = list_changes(sync_call(), "t0");
    fetch_of(l.next());
    let step = l.page_fetched(Some(ChangePage {
        next_page_token: None,
        new_start_page_token: None,
        changes: Some(vec![change("a")]),
    }));
    assert_eq!(failure(step), PageError::NoTokens);
    assert!(is_done(l.next()));

    let mut l = list_changes(sync_call(), "t0");
    fetch_of(l.next());
    let step = l.page_fetched(Some(ChangePage {
        next_page_token: Some("t1".to_string()),
        new_start_page_token: None,
        changes: None,
    }));
    assert_eq!(failure(step), PageError::NoChanges);

    let mut l = list_changes(sync_call(), "t0");
    fetch_of(l.next());
    let step = l.page_fetched(Some(ChangePage {
        next_page_token: Some("t1".to_string()),
        new_start_page_token: None,
        changes: Some(vec![]),
    }));
    assert_eq!(failure(step), PageError::EmptyPage);
    assert!(is_done(l.next()));
}

#[test]
fn call_options_collect_scopes() {
    let c = root_file_call();
    assert_eq!(c.fields, "id,mimeType,modifiedTime,name,parents,size,starred,trashed");
    assert!(c.scopes.is_empty());
    assert_eq!(c.spaces, None);
    let c = c.set_scope("one").default_scope();
    assert_eq!(c.scopes, ["one", "https://www.googleapis.com/auth/drive", "profile", "email"]);
    let d = c.clone();
    assert_eq!(d, c);
}

#[test]
fn scope_lists_are_sorted_and_hashed() {
    let list = ScopeList::new(&vec!["profile", "email", "https://x", "a"]);
    assert_eq!(list.scopes, vec!["a", "email", "https://x", "profile"]);
    assert_eq!(list.as_vec(), &list.scopes);
    let expected = {
        let mut h = std::collections::hash_map::DefaultHasher::new();
        vec!["a", "email", "https://x", "profile"].hash(&mut h);
        h.finish()
    };
    assert_eq!(list.hash, expected);
    let other = ScopeList::new(&vec!["a", "profile", "email", "https://x"]);
    assert_eq!(other.hash, list.hash);
    assert_eq!(other.scopes, list.scopes);
    assert_ne!(ScopeList::new(&vec!["a", "a"]).hash, ScopeList::new(&vec!["a"]).hash);
    assert_ne!(ScopeList::new(&vec!["a"]).hash, list.hash);
}

#[test]
fn application_scopes() {
    assert_eq!(scopes(), ALL_SCOPES);
    let list = get_scopes();
    assert_eq!(list.scopes, vec!["email", "https://www.googleapis.com/auth/drive", "profile"]);
    assert_eq!(list.hash, ScopeList::new(&ALL_SCOPES.to_vec()).hash);
}
