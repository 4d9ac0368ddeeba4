use drorg::records::{
    read_rfc3339, Doc, DocumentRecord, NewAccount, NewAccountAssociation, NewDoc, NewLink,
    NewListItem, RecordError, Timestamp, CLI_CWD_ID, CLI_LAST_PRINT_ID,
};

fn blank() -> DocumentRecord {
    DocumentRecord {
        id: None,
        name: None,
        mime_type: None,
        starred: None,
        trashed: None,
        modified_time: None,
        parents: None,
    }
}

#[test]
fn rfc3339_is_read_as_utc() {
    assert_eq!(read_rfc3339("1970-01-01T00:00:00Z"), Some(Timestamp { secs: 0, nanos: 0 }));
    assert_eq!(
        read_rfc3339("2018-10-01T12:00:00Z"),
        Some(Timestamp { secs: 1538395200, nanos: 0 })
    );
    assert_eq!(
        read_rfc3339("1996-12-19T16:39:57-08:00"),
        Some(Timestamp { secs: 851042397, nanos: 0 })
    );
    assert_eq!(
        read_rfc3339("2018-10-01T12:00:00.250Z"),
        Some(Timestamp { secs: 1538395200, nanos: 250_000_000 })
    );
    assert_eq!(read_rfc3339("1969-12-31T23:59:59Z"), Some(Timestamp { secs: -1, nanos: 0 }));
}

#[test]
fn bad_dates_are_refused() {
    assert_eq!(read_rfc3339(""), None);
    assert_eq!(read_rfc3339("yesterday"), None);
    assert_eq!(read_rfc3339("2018-10-01"), None);
    assert_eq!(read_rfc3339("2018-13-01T12:00:00Z"), None);
    assert_eq!(read_rfc3339("2018-10-01T12:00:00"), None);
}

#[test]
fn record_without_id_is_refused_first() {
    assert_eq!(NewDoc::from_api_object(&blank()), Err(RecordError::MissingId));
    let mut rec = blank();
    rec.modified_time = Some("2018-10-01T12:00:00Z".to_string());
    assert_eq!(NewDoc::from_api_object(&rec), Err(RecordError::MissingId));
}

#[test]
fn record_without_time_is_refused() {
    let mut rec = blank();
    rec.id = Some("x".to_string());
    assert_eq!(NewDoc::from_api_object(&rec), Err(RecordError::MissingModifiedTime));
    assert_eq!(
        NewDoc::assemble(&rec, Some(Timestamp { secs: 1, nanos: 0 })),
        Err(RecordError::MissingModifiedTime)
    );
    rec.modified_time = Some("not a date".to_string());
    assert_eq!(NewDoc::from_api_object(&rec), Err(RecordError::BadModifiedTime));
}

#[test]
fn absent_fields_get_their_defaults() {
    let mut rec = blank();
    rec.id = Some("x".to_string());
    rec.modified_time = Some("2018-10-01T12:00:00Z".to_string());
    let doc = NewDoc::from_api_object(&rec).unwrap();
    assert_eq!(
        doc,
        NewDoc {
            id: "x",
            name: "???",
            mime_type: "",
            starred: false,
            trashed: false,
            modified_time: Timestamp { secs: 1538395200, nanos: 0 },
        }
    );
}

#[test]
fn present_fields_are_taken_over() {
    let rec = DocumentRecord {
        id: Some("x".to_string()),
        name: Some("Report".to_string()),
        mime_type: Some("application/pdf".to_string()),
        starred: Some(true),
        trashed: Some(true),
        modified_time: Some("ignored".to_string()),
        parents: Some(vec!["p".to_string()]),
    };
    let t = Timestamp { secs: 5, nanos: 6 };
    assert_eq!(
        NewDoc::assemble(&rec, Some(t)),
        Ok(NewDoc {
            id: "x",
            name: "Report",
            mime_type: "application/pdf",
            starred: true,
            trashed: true,
            modified_time: t,
        })
    );
    assert_eq!(NewDoc::assemble(&rec, None), Err(RecordError::BadModifiedTime));
}

fn doc(id: &str, mime: &str) -> Doc {
    Doc {
        id: id.to_string(),
        name: "n".to_string(),
        mime_type: mime.to_string(),
        modified_time: Timestamp { secs: 9, nanos: 1 },
        starred: false,
        trashed: false,
    }
}

#[test]
fn folders_are_known_by_their_mime_type() {
    assert!(doc("a", "application/vnd.google-apps.folder").is_folder());
    assert!(!doc("a", "application/vnd.google-apps.document").is_folder());
    assert!(!doc("a", "").is_folder());
    assert!(!doc("a", "APPLICATION/VND.GOOGLE-APPS.FOLDER").is_folder());
}

#[test]
fn open_url_names_the_document() {
    assert_eq!(
        doc("abc123", "").open_url(),
        Some("https://drive.google.com/open?id=abc123".to_string())
    );
    assert_eq!(
        doc("a b\"c", "").open_url(),
        Some("https://drive.google.com/open?id=a%20b%22c".to_string())
    );
    assert_eq!(doc("", "").open_url(), Some("https://drive.google.com/open?id=".to_string()));
}

#[test]
fn mod_time_is_handed_out() {
    assert_eq!(doc("a", "").utc_mod_time(), Timestamp { secs: 9, nanos: 1 });
}

#[test]
fn timestamps_are_ordered_by_seconds_then_nanoseconds() {
    let a = Timestamp { secs: 1, nanos: 999 };
    let b = Timestamp { secs: 2, nanos: 0 };
    let c = Timestamp { secs: 2, nanos: 1 };
    assert!(a.is_before(&b));
    assert!(b.is_before(&c));
    assert!(!c.is_before(&b));
    assert!(!a.is_before(&a));
    assert_eq!(c.elapsed_nanos(&a), 999_999_002);
    assert_eq!(a.elapsed_nanos(&c), -999_999_002);
}

#[test]
fn new_rows_hold_what_they_are_given() {
    assert_eq!(NewAccount::new("a@b.c").email, "a@b.c");
    let l = NewLink::new(3, "p", "c");
    assert_eq!((l.account_id, l.parent_id, l.child_id), (3, "p", "c"));
    let a = NewAccountAssociation::new("d", 4);
    assert_eq!((a.doc_id, a.account_id), ("d", 4));
    let i = NewListItem::new(CLI_CWD_ID, 0, "d");
    assert_eq!((i.listing_id, i.position, i.doc_id), (1, 0, "d"));
    assert_eq!(CLI_LAST_PRINT_ID, 0);
}
