use drorg::accounts::{account_email, account_file_name};
use drorg::app::{Application, ApplicationOptions, NotAFolder, SyncOption};
use drorg::colors::{
    report_destination, BasicColors, Color, ColorSpec, Colors, PrintDestination, ReportType,
    ReportingColors,
};
use drorg::linkage::LinkageError;
use drorg::listing::{age_of, span_between, width_of};
use drorg::paging::PageError;
use drorg::records::{Doc, NewDoc, RecordError, Timestamp, CLI_LAST_PRINT_ID};
use drorg::resolve::ResolveError;
use drorg::store::MirrorStore;
use drorg::sync::SyncError;

const FOLDER: &str = "application/vnd.google-apps.folder";

fn doc(id: &str, name: &str, mime: &str, secs: i64, starred: bool, trashed: bool) -> Doc {
    Doc {
        id: id.to_string(),
        name: name.to_string(),
        mime_type: mime.to_string(),
        modified_time: Timestamp { secs, nanos: 0 },
        starred,
        trashed,
    }
}

fn bold(c: Color) -> ColorSpec {
    ColorSpec { fg: Some(c), bold: true }
}

#[test]
fn default_palette() {
    let c = Colors::default();
    assert_eq!(c.green, bold(Color::Green));
    assert_eq!(c.yellow, bold(Color::Yellow));
    assert_eq!(c.red, bold(Color::Red));
    assert_eq!(c.hl, ColorSpec { fg: None, bold: true });
    assert_eq!(c.plain, ColorSpec { fg: None, bold: false });
    assert_eq!(c.percent_tag, ColorSpec { fg: Some(Color::Red), bold: false });
    assert_eq!(c.folder, bold(Color::Blue));
    let b = BasicColors::default();
    assert_eq!((b.green, b.yellow, b.red, b.hl), (c.green, c.yellow, c.red, c.hl));
}

#[test]
fn report_colors_and_streams() {
    let c = Colors::default();
    assert_eq!(*c.get_color_for_report(ReportType::Info), bold(Color::Green));
    assert_eq!(*c.get_color_for_report(ReportType::Warning), bold(Color::Yellow));
    assert_eq!(*c.get_color_for_report(ReportType::Error), bold(Color::Red));
    let b = BasicColors::default();
    assert_eq!(*b.get_color_for_report(ReportType::Error), bold(Color::Red));
    assert_eq!(report_destination(ReportType::Info), PrintDestination::Stdout);
    assert_eq!(report_destination(ReportType::Warning), PrintDestination::Stderr);
    assert_eq!(report_destination(ReportType::Error), PrintDestination::Stderr);
}

#[test]
fn document_colors_go_by_trash_star_folder() {
    let c = Colors::default();
    assert_eq!(*c.color_for_doc(&doc("a", "a", FOLDER, 0, true, true)), c.red);
    assert_eq!(*c.color_for_doc(&doc("a", "a", FOLDER, 0, true, false)), c.yellow);
    assert_eq!(*c.color_for_doc(&doc("a", "a", FOLDER, 0, false, false)), c.folder);
    assert_eq!(*c.color_for_doc(&doc("a", "a", "text/plain", 0, false, false)), c.plain);
}

#[test]
fn ages_are_put_in_words() {
    let then = Timestamp { secs: 1000, nanos: 0 };
    assert_eq!(age_of(&Timestamp { secs: 4600, nanos: 0 }, &then), "1 hour ago");
    assert_eq!(age_of(&Timestamp { secs: 1000 + 86400, nanos: 0 }, &then), "1 day ago");
    assert_eq!(age_of(&Timestamp { secs: 1120, nanos: 0 }, &then), "2 minutes ago");
    assert_eq!(age_of(&then, &then), "now");
    assert_eq!(age_of(&then, &Timestamp { secs: 1000, nanos: 1 }), "[future?]");
    assert_eq!(age_of(&then, &Timestamp { secs: 2000, nanos: 0 }), "[future?]");
}

#[test]
fn spans_are_split_into_seconds_and_nanoseconds() {
    let a = Timestamp { secs: 10, nanos: 900_000_000 };
    let b = Timestamp { secs: 12, nanos: 100_000_000 };
    assert_eq!(span_between(&b, &a), Some((1, 200_000_000)));
    assert_eq!(span_between(&a, &b), None);
    assert_eq!(span_between(&a, &a), Some((0, 0)));
    let early = Timestamp { secs: i64::MIN, nanos: 0 };
    let late = Timestamp { secs: i64::MAX, nanos: 0 };
    assert_eq!(span_between(&late, &early), Some((u64::MAX, 0)));
}

#[test]
fn widths_count_digits() {
    for (n, w) in [(0, 1), (1, 1), (9, 1), (10, 2), (99, 2), (100, 3), (12345, 5)] {
        assert_eq!(width_of(n), w);
    }
    assert_eq!(width_of(usize::MAX), format!("{}", usize::MAX).len());
}

#[test]
fn printing_lays_out_and_records_the_listing() {
    let mut a =
        Application::initialize(ApplicationOptions { sync: SyncOption::No }, MirrorStore::new());
    let docs = vec![
        doc("x", "short", "text/plain", 1000, false, false),
        doc("y", "a longer name", FOLDER, 400, false, false),
        doc("z", "très", "text/plain", 5000, true, false),
    ];
    for d in &docs {
        a.store.upsert_document(&NewDoc {
            id: &d.id,
            name: &d.name,
            mime_type: &d.mime_type,
            starred: d.starred,
            trashed: d.trashed,
            modified_time: d.modified_time,
        });
    }
    let colors = Colors::default();
    let out = a.print_doc_list(&docs, &colors, Timestamp { secs: 4600, nanos: 0 });
    assert_eq!(out.tag_width, 1);
    assert_eq!(out.name_width, 13);
    assert_eq!(out.lines.len(), 3);
    assert_eq!(out.lines[0].tag, 1);
    assert_eq!(out.lines[0].name, "short");
    assert_eq!(out.lines[0].color, colors.plain);
    assert_eq!(out.lines[0].ago, "1 hour ago");
    assert_eq!(out.lines[1].tag, 2);
    assert_eq!(out.lines[1].color, colors.folder);
    assert_eq!(out.lines[1].ago, "1 hour ago");
    assert_eq!(out.lines[2].tag, 3);
    assert_eq!(out.lines[2].color, colors.yellow);
    assert_eq!(out.lines[2].ago, "[future?]");
    let items = a.store.all_list_items();
    let rows: Vec<(i32, i32, &str)> =
        items.iter().map(|i| (i.listing_id, i.position, i.doc_id.as_str())).collect();
    assert_eq!(
        rows,
        vec![(CLI_LAST_PRINT_ID, 0, "x"), (CLI_LAST_PRINT_ID, 1, "y"), (CLI_LAST_PRINT_ID, 2, "z")]
    );
    assert_eq!(a.get_docs().process_one("%2").unwrap().id, "y");

    let none = a.print_doc_list(&vec![], &colors, Timestamp { secs: 0, nanos: 0 });
    assert_eq!(none.lines.len(), 0);
    assert_eq!(a.store.all_list_items().len(), 3);

    let one = a.print_doc_list(&docs[2..].to_vec(), &colors, Timestamp { secs: 0, nanos: 0 });
    assert_eq!(one.name_width, 4);
    assert_eq!(a.store.all_list_items().len(), 1);
    assert_eq!(a.get_docs().process_one("%1").unwrap().id, "z");
}

#[test]
fn ten_documents_need_two_columns_for_tags() {
    let mut a =
        Application::initialize(ApplicationOptions { sync: SyncOption::No }, MirrorStore::new());
    let docs: Vec<Doc> =
        (0..10).map(|i| doc(&format!("d{}", i), "n", "text/plain", 0, false, false)).collect();
    let out = a.print_doc_list(&docs, &Colors::default(), Timestamp { secs: 0, nanos: 0 });
    assert_eq!(out.tag_width, 2);
    assert_eq!(out.lines[9].tag, 10);
}

#[test]
fn account_files_are_named_by_email() {
    assert_eq!(account_file_name("me@example.com"), "me@example.com.json");
    assert_eq!(account_email("me@example.com.json"), Some("me@example.com".to_string()));
    assert_eq!(account_email(".json"), Some(String::new()));
    assert_eq!(account_email("me@example.com"), None);
    assert_eq!(account_email("me@example.com.JSON"), None);
    assert_eq!(account_email("json"), None);
    assert_eq!(account_email(""), None);
    assert_eq!(account_email("é.json"), Some("é".to_string()));
}

#[test]
fn accounts_are_stored_once() {
    let mut store = MirrorStore::new();
    assert!(store.add_account(1, "a@example.com"));
    assert!(store.add_account(2, "b@example.com"));
    assert!(!store.add_account(1, "c@example.com"));
    let all = store.all_accounts();
    assert_eq!(all.len(), 2);
    assert_eq!(all[0].email, "a@example.com");
    assert_eq!(store.find_account_by_email("b@example.com").unwrap().id, 2);
    assert_eq!(store.find_account_by_email("c@example.com"), None);
}

#[test]
fn every_error_has_its_text() {
    assert_eq!(RecordError::MissingId.message(), "no ID provided with file object");
    assert_eq!(
        RecordError::MissingModifiedTime.message(),
        "no modifiedTime provided with file object"
    );
    assert!(RecordError::BadModifiedTime.message().contains("RFC 3339"));
    assert_eq!(SyncError::NoChangeToken.message(), "no change-paging token for this account");
    assert_eq!(
        SyncError::MissingFile.message(),
        "server reported file change but did not provide its information"
    );
    assert_eq!(
        SyncError::Record(RecordError::MissingId).message(),
        RecordError::MissingId.message()
    );
    assert_eq!(PageError::NoFiles.message(), "API call failed: no 'files' returned");
    assert_eq!(PageError::NoChanges.message(), "API call failed: no 'changes' returned");
    assert_eq!(PageError::EmptyPage.message(), "API call failed: empty page in midst of query");
    assert_eq!(
        PageError::NoTokens.message(),
        "API call failed: Neither next_page_token nor new_start_page_token provided"
    );
    assert_eq!(PageError::Remote.message(), "API call failed");
    assert_eq!(
        ResolveError::NoCwd.message(),
        "the virtual CWD (\".\") is not currently defined"
    );
    assert_eq!(ResolveError::InvalidReference.message(), "not a valid recent-document reference");
    assert_eq!(ResolveError::NoMatch.message(), "no documents matched the specifier");
    assert!(ResolveError::Ambiguous.message().contains("exactly one document"));
    assert!(!ResolveError::BadReferenceNumber.message().is_empty());
    assert!(!ResolveError::MissingDocument.message().is_empty());
    assert_eq!(ResolveError::TooManyLinks.message(), LinkageError::TooManyLinks.message());
    assert_eq!(NotAFolder {}.message(), "cannot set virtual CWD to non-folder");
}
