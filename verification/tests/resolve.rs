use drorg::app::{Application, ApplicationOptions, NotAFolder, SyncOption};
use drorg::pattern::{chars_of, like};
use drorg::records::{
    Doc, NewAccountAssociation, NewDoc, NewLink, Timestamp, CLI_CWD_ID, CLI_LAST_PRINT_ID,
};
use drorg::resolve::{parse_i32, sort_recent_first, ResolveError, Unresolved, MAX_TO_PRINT};
use drorg::store::MirrorStore;

const FOLDER: &str = "application/vnd.google-apps.folder";

fn add(store: &mut MirrorStore, id: &str, name: &str, mime: &str, secs: i64) {
    store.upsert_document(&NewDoc {
        id,
        name,
        mime_type: mime,
        starred: false,
        trashed: false,
        modified_time: Timestamp { secs, nanos: 0 },
    });
}

fn app_with(docs: &[(&str, &str, i64)]) -> Application {
    let mut store = MirrorStore::new();
    for (id, name, secs) in docs {
        add(&mut store, id, name, "text/plain", *secs);
    }
    Application::initialize(ApplicationOptions { sync: SyncOption::No }, store)
}

fn ids(docs: &[Doc]) -> Vec<&str> {
    docs.iter().map(|d| d.id.as_str()).collect()
}

fn number(text: &str) -> Option<i32> {
    parse_i32(&chars_of(text))
}

#[test]
fn numbers_are_read_like_i32() {
    for text in [
        "0", "7", "42", "+42", "-42", "007", "2147483647", "-2147483648", "2147483648",
        "-2147483649", "99999999999999999999", "", "+", "-", "1a", "a1", " 1", "1 ", "--1", "+-1",
        "1.0", "٣",
    ] {
        assert_eq!(number(text), text.parse::<i32>().ok(), "{:?}", text);
    }
    assert_eq!(number("2147483647"), Some(i32::MAX));
    assert_eq!(number("-2147483648"), Some(i32::MIN));
    assert_eq!(number("12"), Some(12));
}

#[test]
fn patterns_match_like_sql() {
    assert!(like("", ""));
    assert!(!like("", "a"));
    assert!(like("%", ""));
    assert!(like("%", "anything"));
    assert!(like("a%", "abc"));
    assert!(!like("a%", "bac"));
    assert!(like("%c", "abc"));
    assert!(like("%b%", "abc"));
    assert!(!like("%d%", "abc"));
    assert!(like("a_c", "abc"));
    assert!(!like("a_c", "ac"));
    assert!(!like("a_c", "abbc"));
    assert!(like("%a%b%", "xxaxxbxx"));
    assert!(!like("%a%b%", "xxbxxaxx"));
    assert!(like("_%", "x"));
    assert!(!like("_%", ""));
    assert!(!like("abc", "ABC"));
    assert!(like("%é_", "caféx"));
    assert!(like("%%", ""));
}

#[test]
fn documents_are_sorted_most_recent_first() {
    let a = app_with(&[("a", "x", 10), ("b", "x", 30), ("c", "x", 20), ("d", "x", 30)]);
    let mut docs = a.store.all_documents();
    sort_recent_first(&mut docs);
    assert_eq!(ids(&docs), vec!["d", "b", "c", "a"]);
    let mut none: Vec<Doc> = vec![];
    sort_recent_first(&mut none);
    assert!(none.is_empty());
}

#[test]
fn documents_of_the_same_time_come_in_reverse() {
    let a = app_with(&[("a", "same", 5), ("b", "same", 5), ("c", "same", 5)]);
    assert_eq!(ids(&a.get_docs().process("same").unwrap()), vec!["c", "b", "a"]);
}

#[test]
fn sorting_looks_at_nanoseconds() {
    let mut docs = vec![
        Doc {
            id: "early".to_string(),
            name: String::new(),
            mime_type: String::new(),
            modified_time: Timestamp { secs: 5, nanos: 1 },
            starred: false,
            trashed: false,
        },
        Doc {
            id: "late".to_string(),
            name: String::new(),
            mime_type: String::new(),
            modified_time: Timestamp { secs: 5, nanos: 2 },
            starred: false,
            trashed: false,
        },
    ];
    sort_recent_first(&mut docs);
    assert_eq!(ids(&docs), vec!["late", "early"]);
}

#[test]
fn exact_id_wins_over_names() {
    let a = app_with(&[("X", "first", 1), ("other", "X", 2), ("third", "aXb", 3)]);
    let found = a.get_docs().process("X").unwrap();
    assert_eq!(ids(&found), vec!["X"]);
    let one = a.get_docs().process_one("X").unwrap();
    assert_eq!(one.id, "X");
    assert_eq!(one.name, "first");
}

#[test]
fn fragments_match_names_anywhere() {
    let a = app_with(&[("1", "Budget 2018", 5), ("2", "budget draft", 9), ("3", "My Budget", 7)]);
    let found = a.get_docs().process("Budget").unwrap();
    assert_eq!(ids(&found), vec!["3", "1"]);
    let found = a.get_docs().process("udget").unwrap();
    assert_eq!(ids(&found), vec!["2", "3", "1"]);
}

#[test]
fn no_match_is_an_error_unless_accepted() {
    let a = app_with(&[("1", "Budget", 5)]);
    assert_eq!(a.get_docs().process("zebra"), Err(ResolveError::NoMatch));
    assert_eq!(a.get_docs().zero_ok(true).process("zebra"), Ok(vec![]));
    assert_eq!(a.get_docs().zero_ok(true).zero_ok(false).process("zebra"), Err(ResolveError::NoMatch));
    assert_eq!(
        a.get_docs().zero_ok(true).process_one("zebra"),
        Err(Unresolved { error: ResolveError::NoMatch, total: 0, candidates: vec![] })
    );
}

#[test]
fn one_match_is_returned() {
    let a = app_with(&[("1", "Budget", 5), ("2", "Report", 6)]);
    assert_eq!(a.get_docs().process_one("Rep").unwrap().id, "2");
}

#[test]
fn ambiguity_shows_twenty_of_twenty_five() {
    let mut store = MirrorStore::new();
    for i in 0..25 {
        add(&mut store, &format!("id{}", i), &format!("match {}", i), "", i);
    }
    let a = Application::initialize(ApplicationOptions { sync: SyncOption::No }, store);
    let err = a.get_docs().process_one("match").unwrap_err();
    assert_eq!(err.error, ResolveError::Ambiguous);
    assert_eq!(err.total, 25);
    assert_eq!(err.candidates.len(), 20);
    assert_eq!(MAX_TO_PRINT, 20);
    let expected: Vec<String> = (0..20).map(|i| format!("id{}", i)).collect();
    let shown: Vec<String> = err.candidates.iter().map(|d| d.id.clone()).collect();
    assert_eq!(shown, expected);
}

#[test]
fn ambiguity_shows_all_of_a_few() {
    let a = app_with(&[("1", "ab", 5), ("2", "abc", 6), ("3", "b", 7)]);
    let err = a.get_docs().process_one("b").unwrap_err();
    assert_eq!(err.error, ResolveError::Ambiguous);
    assert_eq!(err.total, 3);
    assert_eq!(ids(&err.candidates), vec!["1", "2", "3"]);
}

#[test]
fn all_gives_every_document() {
    let a = app_with(&[("1", "a", 5), ("2", "b", 6)]);
    assert_eq!(ids(&a.get_docs().all()), vec!["1", "2"]);
}

#[test]
fn cwd_must_be_defined() {
    let a = app_with(&[("1", "a", 5)]);
    assert_eq!(a.get_docs().process("."), Err(ResolveError::NoCwd));
    assert_eq!(a.get_docs().zero_ok(true).process("."), Err(ResolveError::NoCwd));
    assert_eq!(a.get_docs().process(".."), Err(ResolveError::NoCwd));
    assert_eq!(a.get_docs().process_one(".").unwrap_err().error, ResolveError::NoCwd);
}

#[test]
fn cwd_is_the_folder_set_last() {
    let mut store = MirrorStore::new();
    add(&mut store, "f1", "Folder one", FOLDER, 1);
    add(&mut store, "f2", "Folder two", FOLDER, 2);
    add(&mut store, "d", "Doc", "text/plain", 3);
    let mut a = Application::initialize(ApplicationOptions { sync: SyncOption::No }, store);
    let f1 = a.store.find_document("f1").unwrap();
    let f2 = a.store.find_document("f2").unwrap();
    let d = a.store.find_document("d").unwrap();
    assert_eq!(a.set_cwd(&d), Err(NotAFolder {}));
    assert_eq!(a.get_docs().process("."), Err(ResolveError::NoCwd));
    a.set_cwd(&f1).unwrap();
    assert_eq!(ids(&a.get_docs().process(".").unwrap()), vec!["f1"]);
    a.set_cwd(&f2).unwrap();
    assert_eq!(ids(&a.get_docs().process(".").unwrap()), vec!["f2"]);
    assert_eq!(a.set_cwd(&d), Err(NotAFolder {}));
    assert_eq!(ids(&a.get_docs().process(".").unwrap()), vec!["f2"]);
    let items = a.store.all_list_items();
    assert_eq!(items.len(), 1);
    assert_eq!((items[0].listing_id, items[0].position), (CLI_CWD_ID, 0));
}

#[test]
fn cwd_parent_collects_parents_of_every_account() {
    let mut store = MirrorStore::new();
    add(&mut store, "rootA", "A root", FOLDER, 1);
    add(&mut store, "rootB", "B root", FOLDER, 2);
    add(&mut store, "mid", "Middle", FOLDER, 3);
    add(&mut store, "cwd", "Here", FOLDER, 4);
    store.add_account(1, "a@example.com");
    store.add_account(2, "b@example.com");
    store.upsert_account_association(&NewAccountAssociation::new("cwd", 1));
    store.upsert_account_association(&NewAccountAssociation::new("cwd", 2));
    store.upsert_link(&NewLink::new(1, "rootA", "mid"));
    store.upsert_link(&NewLink::new(1, "mid", "cwd"));
    store.upsert_link(&NewLink::new(2, "rootB", "cwd"));
    store.upsert_link(&NewLink::new(2, "mid", "cwd"));
    store.upsert_link(&NewLink::new(3, "stranger", "cwd"));
    let mut a = Application::initialize(ApplicationOptions { sync: SyncOption::No }, store);
    let cwd = a.store.find_document("cwd").unwrap();
    a.set_cwd(&cwd).unwrap();
    let parents = a.get_docs().process("..").unwrap();
    assert_eq!(ids(&parents), vec!["mid", "rootB"]);
    assert_eq!(cwd.accounts(&a).len(), 2);
}

#[test]
fn cwd_parent_of_root_is_nothing() {
    let mut store = MirrorStore::new();
    add(&mut store, "root", "Root", FOLDER, 1);
    add(&mut store, "kid", "Kid", FOLDER, 1);
    store.add_account(1, "a@example.com");
    store.upsert_account_association(&NewAccountAssociation::new("root", 1));
    store.upsert_link(&NewLink::new(1, "root", "kid"));
    let mut a = Application::initialize(ApplicationOptions { sync: SyncOption::No }, store);
    let root = a.store.find_document("root").unwrap();
    a.set_cwd(&root).unwrap();
    assert_eq!(a.get_docs().process(".."), Err(ResolveError::NoMatch));
    assert_eq!(a.get_docs().zero_ok(true).process(".."), Ok(vec![]));
}

#[test]
fn cwd_parent_without_row_is_an_error() {
    let mut store = MirrorStore::new();
    add(&mut store, "cwd", "Here", FOLDER, 4);
    store.add_account(1, "a@example.com");
    store.upsert_account_association(&NewAccountAssociation::new("cwd", 1));
    store.upsert_link(&NewLink::new(1, "unlisted", "cwd"));
    let mut a = Application::initialize(ApplicationOptions { sync: SyncOption::No }, store);
    let cwd = a.store.find_document("cwd").unwrap();
    a.set_cwd(&cwd).unwrap();
    assert_eq!(a.get_docs().process(".."), Err(ResolveError::MissingDocument));
}

#[test]
fn references_count_from_one() {
    let mut a = app_with(&[("a", "Alpha", 1), ("b", "Beta", 2), ("c", "Gamma", 3)]);
    assert_eq!(a.get_docs().process("%1"), Err(ResolveError::InvalidReference));
    a.store.replace_listing(CLI_LAST_PRINT_ID, &vec!["c".to_string(), "a".to_string()]);
    assert_eq!(ids(&a.get_docs().process("%1").unwrap()), vec!["c"]);
    assert_eq!(ids(&a.get_docs().process("%2").unwrap()), vec!["a"]);
    assert_eq!(ids(&a.get_docs().process("%+2").unwrap()), vec!["a"]);
    assert_eq!(a.get_docs().process("%3"), Err(ResolveError::InvalidReference));
    assert_eq!(a.get_docs().process("%0"), Err(ResolveError::InvalidReference));
    assert_eq!(a.get_docs().process("%-1"), Err(ResolveError::InvalidReference));
    assert_eq!(a.get_docs().process("%-2147483648"), Err(ResolveError::InvalidReference));
    assert_eq!(a.get_docs().process("%"), Err(ResolveError::BadReferenceNumber));
    assert_eq!(a.get_docs().process("%x"), Err(ResolveError::BadReferenceNumber));
    assert_eq!(a.get_docs().process("%99999999999"), Err(ResolveError::BadReferenceNumber));
    assert_eq!(a.get_docs().zero_ok(true).process("%9"), Err(ResolveError::InvalidReference));
}

#[test]
fn reference_to_a_vanished_document_is_an_error() {
    let mut a = app_with(&[("a", "Alpha", 1)]);
    a.store.replace_listing(CLI_LAST_PRINT_ID, &vec!["gone".to_string()]);
    assert_eq!(a.get_docs().process("%1"), Err(ResolveError::MissingDocument));
}

#[test]
fn listings_do_not_disturb_each_other() {
    let mut store = MirrorStore::new();
    add(&mut store, "f", "Folder", FOLDER, 1);
    add(&mut store, "a", "Alpha", "", 2);
    let mut a = Application::initialize(ApplicationOptions { sync: SyncOption::No }, store);
    a.store.replace_listing(CLI_LAST_PRINT_ID, &vec!["a".to_string(), "f".to_string()]);
    let f = a.store.find_document("f").unwrap();
    a.set_cwd(&f).unwrap();
    assert_eq!(ids(&a.get_docs().process("%1").unwrap()), vec!["a"]);
    assert_eq!(ids(&a.get_docs().process(".").unwrap()), vec!["f"]);
    a.store.replace_listing(CLI_LAST_PRINT_ID, &vec!["f".to_string()]);
    assert_eq!(ids(&a.get_docs().process("%1").unwrap()), vec!["f"]);
    assert_eq!(ids(&a.get_docs().process(".").unwrap()), vec!["f"]);
    assert_eq!(a.store.all_list_items().len(), 2);
}

#[test]
fn a_document_named_dot_is_found_by_id_first() {
    let a = app_with(&[(".", "dot", 1), ("%1", "percent", 2)]);
    assert_eq!(ids(&a.get_docs().process(".").unwrap()), vec!["."]);
    assert_eq!(ids(&a.get_docs().process("%1").unwrap()), vec!["%1"]);
}

#[test]
fn wildcards_in_a_fragment_stay_wildcards() {
    let a = app_with(&[("1", "abc", 1), ("2", "axc", 2), ("3", "ac", 3)]);
    assert_eq!(ids(&a.get_docs().process("a_c").unwrap()), vec!["2", "1"]);
    assert_eq!(ids(&a.get_docs().process("a%c").unwrap()), vec!["3", "2", "1"]);
}
