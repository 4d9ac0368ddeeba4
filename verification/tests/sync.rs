use drorg::app::{AccountData, Application, ApplicationOptions, SyncOption};
use drorg::records::{
    ChangeRecord, Doc, DocumentRecord, Link, NewAccountAssociation, NewDoc, NewLink, RecordError,
    Timestamp,
};
use drorg::store::MirrorStore;
use drorg::sync::{
    apply_change, apply_change_with, apply_changes, import_record, import_record_with,
    import_records, import_root, import_root_with, SyncError,
};

fn record(id: &str, name: &str, parents: &[&str]) -> DocumentRecord {
    DocumentRecord {
        id: Some(id.to_string()),
        name: Some(name.to_string()),
        mime_type: Some("text/plain".to_string()),
        starred: Some(false),
        trashed: Some(false),
        modified_time: Some("2018-10-01T12:00:00Z".to_string()),
        parents: Some(parents.iter().map(|p| p.to_string()).collect()),
    }
}

fn removal(id: &str) -> ChangeRecord {
    ChangeRecord { file_id: Some(id.to_string()), removed: Some(true), file: None }
}

fn update(rec: DocumentRecord) -> ChangeRecord {
    ChangeRecord { file_id: rec.id.clone(), removed: Some(false), file: Some(rec) }
}

fn link(account: i32, parent: &str, child: &str) -> Link {
    Link { account_id: account, parent_id: parent.to_string(), child_id: child.to_string() }
}

fn account(id: i32, token: Option<&str>) -> AccountData {
    AccountData {
        change_page_token: token.map(|t| t.to_string()),
        root_folder_id: String::new(),
        db_id: id,
        last_sync: None,
    }
}

fn app() -> Application {
    Application::initialize(ApplicationOptions { sync: SyncOption::Auto }, MirrorStore::new())
}

const T0: Timestamp = Timestamp { secs: 1538395200, nanos: 0 };

#[test]
fn import_stores_documents_associations_and_links() {
    let mut store = MirrorStore::new();
    import_record(&mut store, 7, &record("root", "My Drive", &[])).unwrap();
    import_records(
        &mut store,
        7,
        &vec![record("folderF", "F", &["root"]), record("docD", "D", &["folderF"])],
    )
    .unwrap();
    let docs = store.all_documents();
    assert_eq!(docs.len(), 3);
    assert_eq!(docs[0].id, "root");
    assert_eq!(docs[0].name, "My Drive");
    assert_eq!(docs[0].modified_time, T0);
    assert_eq!(docs[2].id, "docD");
    assert_eq!(store.all_links(), vec![link(7, "root", "folderF"), link(7, "folderF", "docD")]);
    let assocs = store.all_associations();
    assert_eq!(assocs.len(), 3);
    assert!(assocs.iter().all(|a| a.account_id == 7));
}

#[test]
fn import_twice_changes_nothing() {
    let root = record("root", "My Drive", &[]);
    let files = vec![
        record("a", "A", &["root"]),
        record("b", "B", &["root", "a"]),
        record("a", "A renamed", &["root"]),
    ];
    let mut app1 = app();
    let mut acct = account(1, Some("t"));
    app1.import_documents(&mut acct, &root, &files, T0).unwrap();
    let docs1 = app1.store.all_documents();
    let links1 = app1.store.all_links();
    let assocs1 = app1.store.all_associations();
    app1.import_documents(&mut acct, &root, &files, T0).unwrap();
    assert_eq!(app1.store.all_documents(), docs1);
    assert_eq!(app1.store.all_links(), links1);
    assert_eq!(app1.store.all_associations(), assocs1);
    assert_eq!(docs1.len(), 3);
    assert_eq!(links1.len(), 3);
    assert_eq!(docs1[1].name, "A renamed");
}

#[test]
fn import_records_root_folder_and_time() {
    let mut a = app();
    let mut acct = account(3, Some("tok"));
    let now = Timestamp { secs: 1700000000, nanos: 5 };
    a.import_documents(&mut acct, &record("r00t", "My Drive", &[]), &vec![], now).unwrap();
    assert_eq!(acct.root_folder_id, "r00t");
    assert_eq!(acct.last_sync, Some(now));
    assert_eq!(acct.change_page_token, Some("tok".to_string()));
    assert_eq!(acct.db_id, 3);
}

#[test]
fn root_record_stores_no_link() {
    let mut a = app();
    let mut acct = account(1, Some("t"));
    let root = record("root", "My Drive", &["above", "beside"]);
    a.import_documents(&mut acct, &root, &vec![], T0).unwrap();
    assert_eq!(a.store.all_links(), Vec::<Link>::new());
    assert_eq!(a.store.all_documents().len(), 1);
    assert_eq!(a.store.all_associations().len(), 1);
    assert_eq!(acct.root_folder_id, "root");

    a.import_documents(&mut acct, &root, &vec![record("kid", "Kid", &["root"])], T0).unwrap();
    assert_eq!(a.store.all_links(), vec![link(1, "root", "kid")]);

    let mut store = MirrorStore::new();
    import_root(&mut store, 2, &root).unwrap();
    assert_eq!(store.all_links(), Vec::<Link>::new());
    assert_eq!(store.find_document("root").unwrap().modified_time, T0);
    let t = Timestamp { secs: 3, nanos: 4 };
    import_root_with(&mut store, 2, &root, Some(t)).unwrap();
    assert_eq!(store.find_document("root").unwrap().modified_time, t);
    assert_eq!(
        import_root_with(&mut store, 2, &root, None),
        Err(SyncError::Record(RecordError::BadModifiedTime))
    );
    assert_eq!(store.all_links(), Vec::<Link>::new());
    assert_eq!(store.all_associations().len(), 1);
}

#[test]
fn root_in_the_listing_keeps_its_links() {
    let mut a = app();
    let mut acct = account(1, Some("t"));
    let root = record("root", "My Drive", &["above"]);
    let listed = record("root", "My Drive", &["above"]);
    a.import_documents(&mut acct, &root, &vec![listed], T0).unwrap();
    assert_eq!(a.store.all_links(), vec![link(1, "above", "root")]);
    let docs = a.store.all_documents();
    let links = a.store.all_links();
    let root2 = record("root", "My Drive", &["above"]);
    let listed2 = record("root", "My Drive", &["above"]);
    a.import_documents(&mut acct, &root2, &vec![listed2], T0).unwrap();
    assert_eq!(a.store.all_documents(), docs);
    assert_eq!(a.store.all_links(), links);
}

#[test]
fn import_is_additive() {
    let mut store = MirrorStore::new();
    import_record(&mut store, 1, &record("d", "D", &["mum"])).unwrap();
    import_record(&mut store, 1, &record("d", "D", &["dad"])).unwrap();
    assert_eq!(store.all_links(), vec![link(1, "mum", "d"), link(1, "dad", "d")]);
}

#[test]
fn failed_import_leaves_account_alone() {
    let mut a = app();
    let mut acct = account(3, Some("tok"));
    let mut bad = record("x", "X", &[]);
    bad.modified_time = None;
    let r = a.import_documents(
        &mut acct,
        &record("root", "R", &[]),
        &vec![record("ok", "OK", &[]), bad, record("late", "L", &[])],
        T0,
    );
    assert_eq!(r, Err(SyncError::Record(RecordError::MissingModifiedTime)));
    assert_eq!(acct, account(3, Some("tok")));
    let ids: Vec<String> = a.store.all_documents().iter().map(|d| d.id.clone()).collect();
    assert_eq!(ids, vec!["root".to_string(), "ok".to_string()]);
}

#[test]
fn root_without_id_fails_the_import() {
    let mut a = app();
    let mut acct = account(3, None);
    let mut root = record("root", "R", &[]);
    root.id = None;
    let r = a.import_documents(&mut acct, &root, &vec![], T0);
    assert_eq!(r, Err(SyncError::Record(RecordError::MissingId)));
    assert_eq!(a.store.all_documents().len(), 0);
}

#[test]
fn removal_deletes_document_links_and_associations() {
    let mut store = MirrorStore::new();
    import_record(&mut store, 1, &record("root", "R", &[])).unwrap();
    import_record(&mut store, 1, &record("folderF", "F", &["root"])).unwrap();
    import_record(&mut store, 1, &record("docD", "D", &["folderF"])).unwrap();
    apply_change(&mut store, 1, &removal("docD")).unwrap();
    assert_eq!(store.find_document("docD"), None);
    assert_eq!(store.all_links(), vec![link(1, "root", "folderF")]);
    assert!(store.all_associations().iter().all(|a| a.doc_id != "docD"));
    assert!(store.find_document("folderF").is_some());
    assert!(store.find_document("root").is_some());
    assert_eq!(store.all_associations().len(), 2);
}

#[test]
fn removal_deletes_links_in_both_directions_for_that_account_only() {
    let mut store = MirrorStore::new();
    store.upsert_link(&NewLink::new(1, "p", "x"));
    store.upsert_link(&NewLink::new(1, "x", "c"));
    store.upsert_link(&NewLink::new(2, "p", "x"));
    store.upsert_link(&NewLink::new(1, "p", "other"));
    apply_change(&mut store, 1, &removal("x")).unwrap();
    assert_eq!(store.all_links(), vec![link(2, "p", "x"), link(1, "p", "other")]);
}

#[test]
fn removal_of_unknown_document_is_no_error() {
    let mut store = MirrorStore::new();
    import_record(&mut store, 1, &record("a", "A", &["r"])).unwrap();
    apply_change(&mut store, 1, &removal("ghost")).unwrap();
    assert_eq!(store.all_documents().len(), 1);
    assert_eq!(store.all_links().len(), 1);
}

#[test]
fn removal_deletes_the_association_of_that_account_only() {
    let mut store = MirrorStore::new();
    store.upsert_account_association(&NewAccountAssociation::new("x", 1));
    store.upsert_account_association(&NewAccountAssociation::new("x", 2));
    store.upsert_account_association(&NewAccountAssociation::new("y", 1));
    apply_change(&mut store, 1, &removal("x")).unwrap();
    let left: Vec<(String, i32)> =
        store.all_associations().into_iter().map(|a| (a.doc_id, a.account_id)).collect();
    assert_eq!(left, vec![("x".to_string(), 2), ("y".to_string(), 1)]);
    store.delete_account_associations("x", 3);
    assert_eq!(store.all_associations().len(), 2);
    store.delete_account_associations("x", 2);
    assert_eq!(store.all_associations().len(), 1);
}

#[test]
fn sync_leaves_other_accounts_alone() {
    let mut a = app();
    let mut first = account(1, Some("t1"));
    let mut second = account(2, Some("t2"));
    let shared = record("shared", "Shared", &["rootB"]);
    a.sync_account(&mut second, &vec![update(shared), update(record("own", "Own", &["rootB"]))], "u2".to_string())
        .unwrap();
    let links_of_second = a.store.links_of_account(2);
    let shared_again = record("shared", "Shared", &["rootA"]);
    a.sync_account(
        &mut first,
        &vec![update(shared_again), removal("shared"), removal("own"), update(record("mine", "Mine", &["rootA"]))],
        "u1".to_string(),
    )
    .unwrap();
    assert_eq!(a.store.links_of_account(2), links_of_second);
    let of_second: Vec<String> = a
        .store
        .all_associations()
        .into_iter()
        .filter(|x| x.account_id == 2)
        .map(|x| x.doc_id)
        .collect();
    assert_eq!(of_second, vec!["shared".to_string(), "own".to_string()]);
    assert_eq!(a.store.links_of_account(1), vec![link(1, "rootA", "mine")]);
    assert_eq!(a.store.find_document("shared"), None);
}

#[test]
fn update_replaces_parent_links() {
    let mut store = MirrorStore::new();
    import_record(&mut store, 1, &record("d", "D", &["old1", "old2"])).unwrap();
    store.upsert_link(&NewLink::new(2, "old1", "d"));
    store.upsert_link(&NewLink::new(1, "d", "child"));
    apply_change(&mut store, 1, &update(record("d", "D2", &["new1", "new2"]))).unwrap();
    assert_eq!(
        store.all_links(),
        vec![link(2, "old1", "d"), link(1, "d", "child"), link(1, "new1", "d"), link(1, "new2", "d")]
    );
    assert_eq!(store.find_document("d").unwrap().name, "D2");
}

#[test]
fn update_without_parents_clears_links() {
    let mut store = MirrorStore::new();
    import_record(&mut store, 1, &record("d", "D", &["old1"])).unwrap();
    let mut rec = record("d", "D", &[]);
    rec.parents = None;
    apply_change(&mut store, 1, &update(rec)).unwrap();
    assert_eq!(store.all_links(), Vec::<Link>::new());
}

#[test]
fn change_without_file_id_is_skipped() {
    let mut store = MirrorStore::new();
    import_record(&mut store, 1, &record("d", "D", &["p"])).unwrap();
    let docs = store.all_documents();
    let links = store.all_links();
    let assocs = store.all_associations();
    let blank = ChangeRecord { file_id: None, removed: None, file: None };
    assert_eq!(apply_change(&mut store, 1, &blank), Ok(()));
    let odd = ChangeRecord { file_id: None, removed: Some(true), file: Some(record("d", "X", &[])) };
    assert_eq!(apply_change(&mut store, 1, &odd), Ok(()));
    assert_eq!(store.all_documents(), docs);
    assert_eq!(store.all_links(), links);
    assert_eq!(store.all_associations(), assocs);
}

#[test]
fn change_without_file_is_an_error() {
    let mut store = MirrorStore::new();
    let c = ChangeRecord { file_id: Some("d".to_string()), removed: None, file: None };
    assert_eq!(apply_change(&mut store, 1, &c), Err(SyncError::MissingFile));
    let c = ChangeRecord { file_id: Some("d".to_string()), removed: Some(false), file: None };
    assert_eq!(apply_change(&mut store, 1, &c), Err(SyncError::MissingFile));
}

#[test]
fn change_with_bad_time_is_an_error_and_changes_nothing() {
    let mut store = MirrorStore::new();
    import_record(&mut store, 1, &record("d", "D", &["p"])).unwrap();
    let mut rec = record("d", "D2", &["q"]);
    rec.modified_time = Some("yesterday".to_string());
    assert_eq!(
        apply_change(&mut store, 1, &update(rec)),
        Err(SyncError::Record(RecordError::BadModifiedTime))
    );
    assert_eq!(store.find_document("d").unwrap().name, "D");
    assert_eq!(store.all_links(), vec![link(1, "p", "d")]);
}

#[test]
fn apply_change_with_uses_the_given_instant() {
    let mut store = MirrorStore::new();
    let t = Timestamp { secs: 42, nanos: 7 };
    apply_change_with(&mut store, 1, &update(record("d", "D", &[])), Some(t)).unwrap();
    assert_eq!(store.find_document("d").unwrap().modified_time, t);
    assert_eq!(
        apply_change_with(&mut store, 1, &update(record("e", "E", &[])), None),
        Err(SyncError::Record(RecordError::BadModifiedTime))
    );
    import_record_with(&mut store, 1, &record("f", "F", &[]), Some(t)).unwrap();
    assert_eq!(store.find_document("f").unwrap().modified_time, t);
    assert_eq!(
        import_record_with(&mut store, 1, &record("g", "G", &[]), None),
        Err(SyncError::Record(RecordError::BadModifiedTime))
    );
}

#[test]
fn changes_apply_in_order_and_stop_at_the_first_error() {
    let mut store = MirrorStore::new();
    let bad = ChangeRecord { file_id: Some("x".to_string()), removed: None, file: None };
    let r = apply_changes(
        &mut store,
        1,
        &vec![
            update(record("a", "A", &[])),
            removal("a"),
            update(record("a", "A again", &[])),
            bad,
            update(record("b", "B", &[])),
        ],
    );
    assert_eq!(r, Err(SyncError::MissingFile));
    let docs = store.all_documents();
    assert_eq!(docs.len(), 1);
    assert_eq!(docs[0].name, "A again");
}

#[test]
fn sync_needs_a_token() {
    let mut a = app();
    let mut acct = account(1, None);
    let r = a.sync_account(&mut acct, &vec![update(record("d", "D", &[]))], "next".to_string());
    assert_eq!(r, Err(SyncError::NoChangeToken));
    assert_eq!(acct.change_page_token, None);
    assert_eq!(a.store.all_documents().len(), 0);
}

#[test]
fn sync_stores_the_new_token_on_success_only() {
    let mut a = app();
    let mut acct = account(1, Some("old"));
    a.sync_account(&mut acct, &vec![update(record("d", "D", &[]))], "next".to_string()).unwrap();
    assert_eq!(acct.change_page_token, Some("next".to_string()));
    assert_eq!(acct.last_sync, None);
    let bad = ChangeRecord { file_id: Some("x".to_string()), removed: None, file: None };
    let r = a.sync_account(&mut acct, &vec![removal("d"), bad], "later".to_string());
    assert_eq!(r, Err(SyncError::MissingFile));
    assert_eq!(acct.change_page_token, Some("next".to_string()));
    assert_eq!(a.store.find_document("d"), None);
}

#[test]
fn end_to_end_removal_after_import() {
    let mut a = app();
    let mut acct = account(1, Some("start"));
    a.import_documents(
        &mut acct,
        &record("root", "My Drive", &[]),
        &vec![record("folderF", "F", &["root"]), record("docD", "D", &["folderF"])],
        T0,
    )
    .unwrap();
    let folder_before = a.store.find_document("folderF");
    let root_before = a.store.find_document("root");
    a.sync_account(&mut acct, &vec![removal("docD")], "t2".to_string()).unwrap();
    assert_eq!(a.store.find_document("docD"), None);
    assert!(a.store.all_links().iter().all(|l| l.child_id != "docD"));
    assert_eq!(a.store.find_document("folderF"), folder_before);
    assert_eq!(a.store.find_document("root"), root_before);
    assert_eq!(a.store.all_links(), vec![link(1, "root", "folderF")]);
    assert_eq!(acct.change_page_token, Some("t2".to_string()));
}

#[test]
fn should_sync_follows_option_and_delay() {
    let last = Timestamp { secs: 1000, nanos: 500 };
    let five_min = Timestamp { secs: 1300, nanos: 500 };
    let just_over = Timestamp { secs: 1300, nanos: 501 };
    let auto = app();
    assert!(auto.should_sync(None, last));
    assert!(!auto.should_sync(Some(last), five_min));
    assert!(auto.should_sync(Some(last), just_over));
    assert!(!auto.should_sync(Some(last), last));
    assert!(!auto.should_sync(Some(just_over), last));
    let no = Application::initialize(ApplicationOptions { sync: SyncOption::No }, MirrorStore::new());
    assert!(!no.should_sync(None, last));
    assert!(!no.should_sync(Some(last), just_over));
    let yes =
        Application::initialize(ApplicationOptions { sync: SyncOption::Yes }, MirrorStore::new());
    assert!(yes.should_sync(Some(last), last));
}

#[test]
fn should_sync_survives_extreme_times() {
    let auto = app();
    let early = Timestamp { secs: i64::MIN, nanos: 0 };
    let late = Timestamp { secs: i64::MAX, nanos: 999_999_999 };
    assert!(auto.should_sync(Some(early), late));
    assert!(!auto.should_sync(Some(late), early));
    assert_eq!(late.elapsed_nanos(&early), (u64::MAX as i128) * 1_000_000_000 + 999_999_999);
}

#[test]
fn upsert_document_replaces_in_place() {
    let mut store = MirrorStore::new();
    let t = Timestamp { secs: 1, nanos: 2 };
    for (id, name) in [("a", "A"), ("b", "B"), ("a", "A2")] {
        store.upsert_document(&NewDoc {
            id,
            name,
            mime_type: "",
            starred: false,
            trashed: true,
            modified_time: t,
        });
    }
    let docs = store.all_documents();
    assert_eq!(
        docs,
        vec![
            Doc {
                id: "a".to_string(),
                name: "A2".to_string(),
                mime_type: String::new(),
                modified_time: t,
                starred: false,
                trashed: true
            },
            Doc {
                id: "b".to_string(),
                name: "B".to_string(),
                mime_type: String::new(),
                modified_time: t,
                starred: false,
                trashed: true
            },
        ]
    );
    store.delete_document("a");
    assert_eq!(store.all_documents().len(), 1);
    assert_eq!(store.all_documents()[0].id, "b");
}
