//! The rows of the local mirror and the records that the remote service
//! reports.

use vstd::prelude::*;

verus! {

/// The listing that holds the documents most recently shown to the user.
pub const CLI_LAST_PRINT_ID: i32 = 0;

/// The listing that holds the virtual current folder; it has at most one item.
pub const CLI_CWD_ID: i32 = 1;

/// An instant in UTC: whole seconds since the start of 1970 and the
/// nanoseconds within that second (above 999,999,999 during a leap second).
#[derive(Clone, Copy, Debug, PartialEq, Eq, Structural)]
pub struct Timestamp {
    pub secs: i64,
    pub nanos: u32,
}

impl Timestamp {
    /// The order of instants: by seconds, then by nanoseconds.
    pub open spec fn before(self, other: Timestamp) -> bool {
        self.secs < other.secs || (self.secs == other.secs && self.nanos < other.nanos)
    }

    /// Whether this instant comes strictly before `other`.
    pub fn is_before(&self, other: &Timestamp) -> (r: bool)
        ensures
            r == self.before(*other),
    {
        self.secs < other.secs || (self.secs == other.secs && self.nanos < other.nanos)
    }

    /// The nanoseconds from `earlier` to this instant; negative when this
    /// instant is the earlier one.
    pub open spec fn nanos_since(self, earlier: Timestamp) -> int {
        (self.secs - earlier.secs) * 1_000_000_000 + (self.nanos - earlier.nanos)
    }

    /// The nanoseconds from `earlier` to this instant.
    pub fn elapsed_nanos(&self, earlier: &Timestamp) -> (r: i128)
        ensures
            r == self.nanos_since(*earlier),
    {
        let secs: i128 = self.secs as i128 - earlier.secs as i128;
        let nanos: i128 = self.nanos as i128 - earlier.nanos as i128;
        assert(-0x1_0000_0000_0000_0000 <= secs <= 0x1_0000_0000_0000_0000);
        assert(secs * 1_000_000_000 <= 0x1_0000_0000_0000_0000 * 1_000_000_000
            && secs * 1_000_000_000 >= -0x1_0000_0000_0000_0000 * 1_000_000_000)
            by (nonlinear_arith)
            requires
                -0x1_0000_0000_0000_0000 <= secs <= 0x1_0000_0000_0000_0000,
        ;
        secs * 1_000_000_000 + nanos
    }
}

#[verifier::external_type_specification]
#[verifier::external_body]
pub struct ExParseError(chrono::format::ParseError);

/// The instant that a text denotes in the RFC 3339 date-and-time format, as
/// seconds and nanoseconds in UTC; `None` for a text that is not such a date.
pub uninterp spec fn rfc3339_instant(text: Seq<char>) -> Option<(i64, u32)>;

/// `chrono::DateTime::parse_from_rfc3339`, with the parsed date given as its
/// UTC timestamp (`timestamp` and `timestamp_subsec_nanos`). The result
/// depends on the text alone.
#[verifier::external_body]
pub(crate) fn parse_rfc3339(text: &str) -> (r: Result<Timestamp, chrono::format::ParseError>)
    ensures
        match r {
            Ok(t) => rfc3339_instant(text@) == Some((t.secs, t.nanos)),
            Err(_) => rfc3339_instant(text@) is None,
        },
{
    match chrono::DateTime::parse_from_rfc3339(text) {
        Ok(dt) => Ok(Timestamp { secs: dt.timestamp(), nanos: dt.timestamp_subsec_nanos() }),
        Err(e) => Err(e),
    }
}

/// Reads an RFC 3339 date and time. `None` means that the text is no such
/// date.
pub fn read_rfc3339(text: &str) -> (r: Option<Timestamp>)
    ensures
        match r {
            Some(t) => rfc3339_instant(text@) == Some((t.secs, t.nanos)),
            None => rfc3339_instant(text@) is None,
        },
{
    match parse_rfc3339(text) {
        Ok(t) => Some(t),
        Err(_) => None,
    }
}

#[verifier::external_type_specification]
#[verifier::external_body]
pub struct ExUrlParseError(url::ParseError);

/// The text of the URL that results when `base` is read as a URL and its
/// query is set to `query`; `None` where `base` is no URL.
pub uninterp spec fn url_with_query_text(base: Seq<char>, query: Seq<char>) -> Option<Seq<char>>;

/// The most characters that [`url_with_query`] takes in all.
pub const MAX_URL_INPUT: usize = 0x0100_0000;

/// `url::Url::parse`, then `Url::set_query` on the parsed URL, then its
/// text. The result depends on the two texts alone. The inputs are kept
/// short of the length at which the URL could outgrow the 32-bit offsets
/// that `url` keeps.
#[verifier::external_body]
pub(crate) fn url_with_query(base: &str, query: &str) -> (r: Result<String, url::ParseError>)
    requires
        base@.len() + query@.len() <= MAX_URL_INPUT,
    ensures
        match r {
            Ok(text) => url_with_query_text(base@, query@) == Some(text@),
            Err(_) => url_with_query_text(base@, query@) is None,
        },
{
    match url::Url::parse(base) {
        Ok(mut parsed) => {
            parsed.set_query(Some(query));
            Ok(parsed.into())
        },
        Err(e) => Err(e),
    }
}

/// The address at which a document can be opened in a browser.
pub open spec fn open_url_base() -> Seq<char> {
    "https://drive.google.com/open"@
}

/// The query that names a document.
pub open spec fn open_url_query(id: Seq<char>) -> Seq<char> {
    "id="@ + id
}

/// What a document row holds.
pub struct DocData {
    pub id: Seq<char>,
    pub name: Seq<char>,
    pub mime_type: Seq<char>,
    pub modified_time: Timestamp,
    pub starred: bool,
    pub trashed: bool,
}

/// What a link row holds.
pub struct LinkData {
    pub account_id: i32,
    pub parent_id: Seq<char>,
    pub child_id: Seq<char>,
}

/// What an account-association row holds.
pub struct AssociationData {
    pub doc_id: Seq<char>,
    pub account_id: i32,
}

/// What a list-item row holds.
pub struct ListItemData {
    pub listing_id: i32,
    pub position: i32,
    pub doc_id: Seq<char>,
}

/// What an account row holds.
pub struct AccountRowData {
    pub id: i32,
    pub email: Seq<char>,
}

/// A text that may be absent, by its characters.
pub open spec fn text_of_url(t: Option<String>) -> Option<Seq<char>> {
    match t {
        Some(s) => Some(s@),
        None => None,
    }
}

/// The MIME type that marks a folder.
pub open spec fn folder_mime_type() -> Seq<char> {
    "application/vnd.google-apps.folder"@
}

/// Superficial information about a logged-in account.
#[derive(Debug, PartialEq, Eq)]
pub struct Account {
    /// The identifier of this account; it has no meaning outside the mirror.
    pub id: i32,
    /// The email address associated with this account.
    pub email: String,
}

impl View for Account {
    type V = AccountRowData;

    open spec fn view(&self) -> AccountRowData {
        AccountRowData { id: self.id, email: self.email@ }
    }
}

impl Clone for Account {
    fn clone(&self) -> (r: Self)
        ensures
            r@ == self@,
    {
        Account { id: self.id, email: self.email.clone() }
    }
}

/// A new account row.
#[derive(Debug, PartialEq)]
pub struct NewAccount<'a> {
    /// The email address associated with this account.
    pub email: &'a str,
}

impl<'a> NewAccount<'a> {
    /// Creates a new account record.
    pub fn new(email: &'a str) -> (r: NewAccount<'a>)
        ensures
            r.email@ == email@,
    {
        NewAccount { email }
    }
}

/// A document of the remote store.
#[derive(Debug, PartialEq, Eq)]
pub struct Doc {
    /// The unique identifier of this document. It never changes.
    pub id: String,
    /// The current name of this document.
    pub name: String,
    /// The MIME type of this document.
    pub mime_type: String,
    /// The last time this document was modified.
    pub modified_time: Timestamp,
    /// Whether the user has starred this document.
    pub starred: bool,
    /// Whether this document is in the trash.
    pub trashed: bool,
}

impl View for Doc {
    type V = DocData;

    open spec fn view(&self) -> DocData {
        DocData {
            id: self.id@,
            name: self.name@,
            mime_type: self.mime_type@,
            modified_time: self.modified_time,
            starred: self.starred,
            trashed: self.trashed,
        }
    }
}

impl Clone for Doc {
    fn clone(&self) -> (r: Self)
        ensures
            r@ == self@,
    {
        Doc {
            id: self.id.clone(),
            name: self.name.clone(),
            mime_type: self.mime_type.clone(),
            modified_time: self.modified_time,
            starred: self.starred,
            trashed: self.trashed,
        }
    }
}

impl Doc {
    /// The modification time of the document, in UTC.
    pub fn utc_mod_time(&self) -> (t: Timestamp)
        ensures
            t == self.modified_time,
    {
        self.modified_time
    }

    /// A URL at which this document can be opened in a browser: the address
    /// of the viewer with the query `id=` and the id of the document.
    /// `None` for an id too long to be put into a URL.
    pub fn open_url(&self) -> (r: Option<String>)
        ensures
            self.id@.len() + 32 > MAX_URL_INPUT ==> r is None,
            self.id@.len() + 32 <= MAX_URL_INPUT ==> text_of_url(r) == url_with_query_text(
                open_url_base(),
                open_url_query(self.id@),
            ),
    {
        let n: usize = self.id.as_str().unicode_len();
        if n > MAX_URL_INPUT - 32 {
            return None;
        }
        let query: String = "id=".to_owned().concat(self.id.as_str());
        proof {
            reveal_strlit("id=");
            reveal_strlit("https://drive.google.com/open");
        }
        match url_with_query("https://drive.google.com/open", query.as_str()) {
            Ok(text) => Some(text),
            Err(_) => None,
        }
    }

    /// Whether this document is a folder.
    pub fn is_folder(&self) -> (r: bool)
        ensures
            r == (self.mime_type@ == folder_mime_type()),
    {
        let folder: String = "application/vnd.google-apps.folder".to_owned();
        self.mime_type == folder
    }
}

/// A new document row.
#[derive(Debug, PartialEq)]
pub struct NewDoc<'a> {
    /// The unique identifier of this document.
    pub id: &'a str,
    /// The current name of this document.
    pub name: &'a str,
    /// The MIME type of this document.
    pub mime_type: &'a str,
    /// Whether the user has starred this document.
    pub starred: bool,
    /// Whether this document is in the trash.
    pub trashed: bool,
    /// The last time this document was modified.
    pub modified_time: Timestamp,
}

impl<'a> View for NewDoc<'a> {
    type V = DocData;

    open spec fn view(&self) -> DocData {
        DocData {
            id: self.id@,
            name: self.name@,
            mime_type: self.mime_type@,
            modified_time: self.modified_time,
            starred: self.starred,
            trashed: self.trashed,
        }
    }
}

/// A parent-child link between two documents, as one account sees it.
#[derive(Debug, PartialEq, Eq)]
pub struct Link {
    /// The account for which this link holds.
    pub account_id: i32,
    /// The document id of the parent.
    pub parent_id: String,
    /// The document id of the child.
    pub child_id: String,
}

impl View for Link {
    type V = LinkData;

    open spec fn view(&self) -> LinkData {
        LinkData {
            account_id: self.account_id,
            parent_id: self.parent_id@,
            child_id: self.child_id@,
        }
    }
}

impl Clone for Link {
    fn clone(&self) -> (r: Self)
        ensures
            r@ == self@,
    {
        Link {
            account_id: self.account_id,
            parent_id: self.parent_id.clone(),
            child_id: self.child_id.clone(),
        }
    }
}

/// A new link row.
#[derive(Debug, PartialEq)]
pub struct NewLink<'a> {
    /// The account for which this link holds.
    pub account_id: i32,
    /// The document id of the parent.
    pub parent_id: &'a str,
    /// The document id of the child.
    pub child_id: &'a str,
}

impl<'a> View for NewLink<'a> {
    type V = LinkData;

    open spec fn view(&self) -> LinkData {
        LinkData {
            account_id: self.account_id,
            parent_id: self.parent_id@,
            child_id: self.child_id@,
        }
    }
}

impl<'a> NewLink<'a> {
    /// Creates a new link record.
    pub fn new(account_id: i32, parent_id: &'a str, child_id: &'a str) -> (r: NewLink<'a>)
        ensures
            r@ == (LinkData { account_id, parent_id: parent_id@, child_id: child_id@ }),
    {
        NewLink { account_id, parent_id, child_id }
    }
}

/// A record that ties a document to a logged-in account.
#[derive(Debug, PartialEq, Eq)]
pub struct AccountAssociation {
    /// The id of the associated document.
    pub doc_id: String,
    /// The id of the associated account.
    pub account_id: i32,
}

impl View for AccountAssociation {
    type V = AssociationData;

    open spec fn view(&self) -> AssociationData {
        AssociationData { doc_id: self.doc_id@, account_id: self.account_id }
    }
}

impl Clone for AccountAssociation {
    fn clone(&self) -> (r: Self)
        ensures
            r@ == self@,
    {
        AccountAssociation { doc_id: self.doc_id.clone(), account_id: self.account_id }
    }
}

/// A new account-association row.
#[derive(Debug, PartialEq)]
pub struct NewAccountAssociation<'a> {
    /// The id of the associated document.
    pub doc_id: &'a str,
    /// The id of the associated account.
    pub account_id: i32,
}

impl<'a> View for NewAccountAssociation<'a> {
    type V = AssociationData;

    open spec fn view(&self) -> AssociationData {
        AssociationData { doc_id: self.doc_id@, account_id: self.account_id }
    }
}

impl<'a> NewAccountAssociation<'a> {
    /// Creates a new account-association record.
    pub fn new(doc_id: &'a str, account_id: i32) -> (r: NewAccountAssociation<'a>)
        ensures
            r@ == (AssociationData { doc_id: doc_id@, account_id }),
    {
        NewAccountAssociation { doc_id, account_id }
    }
}

/// A document that has been entered in some listing.
#[derive(Debug, PartialEq, Eq)]
pub struct ListItem {
    /// The listing to which this row belongs.
    pub listing_id: i32,
    /// The 0-based position of this row in the listing.
    pub position: i32,
    /// The id of the document in this row.
    pub doc_id: String,
}

impl View for ListItem {
    type V = ListItemData;

    open spec fn view(&self) -> ListItemData {
        ListItemData { listing_id: self.listing_id, position: self.position, doc_id: self.doc_id@ }
    }
}

impl Clone for ListItem {
    fn clone(&self) -> (r: Self)
        ensures
            r@ == self@,
    {
        ListItem {
            listing_id: self.listing_id,
            position: self.position,
            doc_id: self.doc_id.clone(),
        }
    }
}

/// A new list-item row.
#[derive(Debug, PartialEq)]
pub struct NewListItem<'a> {
    /// The listing to which this row belongs.
    pub listing_id: i32,
    /// The 0-based position of this row in the listing.
    pub position: i32,
    /// The id of the document in this row.
    pub doc_id: &'a str,
}

impl<'a> View for NewListItem<'a> {
    type V = ListItemData;

    open spec fn view(&self) -> ListItemData {
        ListItemData { listing_id: self.listing_id, position: self.position, doc_id: self.doc_id@ }
    }
}

impl<'a> NewListItem<'a> {
    /// Creates a new list-item record.
    pub fn new(listing_id: i32, position: i32, doc_id: &'a str) -> (r: NewListItem<'a>)
        ensures
            r@ == (ListItemData { listing_id, position, doc_id: doc_id@ }),
    {
        NewListItem { listing_id, position, doc_id }
    }
}

/// A document as the remote service reports it. Every field may be absent.
#[derive(Debug, PartialEq, Eq)]
pub struct DocumentRecord {
    pub id: Option<String>,
    pub name: Option<String>,
    pub mime_type: Option<String>,
    pub starred: Option<bool>,
    pub trashed: Option<bool>,
    /// The modification time as an RFC 3339 text.
    pub modified_time: Option<String>,
    /// The ids of the parents of the document.
    pub parents: Option<Vec<String>>,
}

/// One entry of the remote change feed.
#[derive(Debug, PartialEq, Eq)]
pub struct ChangeRecord {
    /// The id of the document that changed.
    pub file_id: Option<String>,
    /// Whether the document was removed or became inaccessible.
    pub removed: Option<bool>,
    /// The new state of the document; present unless it was removed.
    pub file: Option<DocumentRecord>,
}

/// Why a reported document cannot become a row.
#[derive(Clone, Copy, Debug, PartialEq, Eq, Structural)]
pub enum RecordError {
    /// The record has no id.
    MissingId,
    /// The record has no modification time.
    MissingModifiedTime,
    /// The modification time is not an RFC 3339 date and time.
    BadModifiedTime,
}

/// The name given to a document that is reported without one.
pub open spec fn default_name() -> Seq<char> {
    "???"@
}

/// The row that a record yields once its modification time has been read:
/// `parsed` is the instant that the record's time text denotes, if any.
pub open spec fn record_row(rec: DocumentRecord, parsed: Option<Timestamp>) -> Result<
    DocData,
    RecordError,
> {
    if rec.id is None {
        Err(RecordError::MissingId)
    } else if rec.modified_time is None {
        Err(RecordError::MissingModifiedTime)
    } else if parsed is None {
        Err(RecordError::BadModifiedTime)
    } else {
        Ok(
            DocData {
                id: rec.id->0@,
                name: if rec.name is Some {
                    rec.name->0@
                } else {
                    default_name()
                },
                mime_type: if rec.mime_type is Some {
                    rec.mime_type->0@
                } else {
                    Seq::<char>::empty()
                },
                modified_time: parsed->0,
                starred: rec.starred == Some(true),
                trashed: rec.trashed == Some(true),
            },
        )
    }
}

/// The instant that the time text of a record denotes.
pub open spec fn record_instant(rec: DocumentRecord) -> Option<Timestamp> {
    if rec.modified_time is None {
        None
    } else {
        match rfc3339_instant(rec.modified_time->0@) {
            Some((secs, nanos)) => Some(Timestamp { secs, nanos }),
            None => None,
        }
    }
}

impl<'a> NewDoc<'a> {
    /// Fills in a row from a reported document whose modification time has
    /// been read already. An absent name becomes `"???"`, an absent MIME
    /// type the empty text, an absent flag `false`.
    pub fn assemble(file: &'a DocumentRecord, parsed: Option<Timestamp>) -> (r: Result<
        NewDoc<'a>,
        RecordError,
    >)
        ensures
            match r {
                Ok(doc) => record_row(*file, parsed) == Ok::<DocData, RecordError>(doc@),
                Err(e) => record_row(*file, parsed) == Err::<DocData, RecordError>(e),
            },
    {
        let id: &str = match &file.id {
            Some(s) => s.as_str(),
            None => {
                return Err(RecordError::MissingId);
            },
        };
        let name: &str = match &file.name {
            Some(s) => s.as_str(),
            None => "???",
        };
        let mime_type: &str = match &file.mime_type {
            Some(s) => s.as_str(),
            None => "",
        };
        let starred: bool = match file.starred {
            Some(b) => b,
            None => false,
        };
        let trashed: bool = match file.trashed {
            Some(b) => b,
            None => false,
        };
        if file.modified_time.is_none() {
            return Err(RecordError::MissingModifiedTime);
        }
        let modified_time: Timestamp = match parsed {
            Some(t) => t,
            None => {
                return Err(RecordError::BadModifiedTime);
            },
        };
        proof {
            reveal_strlit("");
            assert(mime_type@ =~= (if file.mime_type is Some {
                file.mime_type->0@
            } else {
                Seq::<char>::empty()
            }));
        }
        Ok(NewDoc { id, name, mime_type, starred, trashed, modified_time })
    }

    /// Fills in a row from a document reported by the remote service.
    pub fn from_api_object(file: &'a DocumentRecord) -> (r: Result<NewDoc<'a>, RecordError>)
        ensures
            match r {
                Ok(doc) => record_row(*file, record_instant(*file)) == Ok::<DocData, RecordError>(
                    doc@,
                ),
                Err(e) => record_row(*file, record_instant(*file)) == Err::<DocData, RecordError>(
                    e,
                ),
            },
    {
        let parsed: Option<Timestamp> = match &file.modified_time {
            Some(text) => read_rfc3339(text.as_str()),
            None => None,
        };
        NewDoc::assemble(file, parsed)
    }
}

} // verus!
