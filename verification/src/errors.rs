//! The texts with which errors are reported to the user.

use vstd::prelude::*;
use crate::app::NotAFolder;
use crate::linkage::LinkageError;
use crate::paging::PageError;
use crate::records::RecordError;
use crate::resolve::ResolveError;
use crate::sync::SyncError;

verus! {

impl RecordError {
    /// The text of the error.
    pub open spec fn text(self) -> Seq<char> {
        match self {
            RecordError::MissingId => "no ID provided with file object"@,
            RecordError::MissingModifiedTime => "no modifiedTime provided with file object"@,
            RecordError::BadModifiedTime => "modifiedTime of file object is not an RFC 3339 date"@,
        }
    }

    /// The text of the error.
    pub fn message(&self) -> (m: String)
        ensures
            m@ == self.text(),
    {
        match self {
            RecordError::MissingId => "no ID provided with file object".to_owned(),
            RecordError::MissingModifiedTime => "no modifiedTime provided with file object".to_owned(),
            RecordError::BadModifiedTime => "modifiedTime of file object is not an RFC 3339 date".to_owned(),
        }
    }
}

impl SyncError {
    /// The text of the error.
    pub open spec fn text(self) -> Seq<char> {
        match self {
            SyncError::NoChangeToken => "no change-paging token for this account"@,
            SyncError::MissingFile => "server reported file change but did not provide its information"@,
            SyncError::Record(e) => e.text(),
        }
    }

    /// The text of the error.
    pub fn message(&self) -> (m: String)
        ensures
            m@ == self.text(),
    {
        match self {
            SyncError::NoChangeToken => "no change-paging token for this account".to_owned(),
            SyncError::MissingFile => "server reported file change but did not provide its information".to_owned(),
            SyncError::Record(e) => e.message(),
        }
    }
}

impl PageError {
    /// The text of the error.
    pub open spec fn text(self) -> Seq<char> {
        match self {
            PageError::Remote => "API call failed"@,
            PageError::NoFiles => "API call failed: no 'files' returned"@,
            PageError::NoChanges => "API call failed: no 'changes' returned"@,
            PageError::NoTokens => "API call failed: Neither next_page_token nor new_start_page_token provided"@,
            PageError::EmptyPage => "API call failed: empty page in midst of query"@,
        }
    }

    /// The text of the error.
    pub fn message(&self) -> (m: String)
        ensures
            m@ == self.text(),
    {
        match self {
            PageError::Remote => "API call failed".to_owned(),
            PageError::NoFiles => "API call failed: no 'files' returned".to_owned(),
            PageError::NoChanges => "API call failed: no 'changes' returned".to_owned(),
            PageError::NoTokens => "API call failed: Neither next_page_token nor new_start_page_token provided".to_owned(),
            PageError::EmptyPage => "API call failed: empty page in midst of query".to_owned(),
        }
    }
}

impl LinkageError {
    /// The text of the error.
    pub open spec fn text(self) -> Seq<char> {
        "the account has more links than a linkage table can hold"@
    }

    /// The text of the error.
    pub fn message(&self) -> (m: String)
        ensures
            m@ == self.text(),
    {
        "the account has more links than a linkage table can hold".to_owned()
    }
}

impl NotAFolder {
    /// The text of the error.
    pub open spec fn text(self) -> Seq<char> {
        "cannot set virtual CWD to non-folder"@
    }

    /// The text of the error.
    pub fn message(&self) -> (m: String)
        ensures
            m@ == self.text(),
    {
        "cannot set virtual CWD to non-folder".to_owned()
    }
}

impl ResolveError {
    /// The text of the error.
    pub open spec fn text(self) -> Seq<char> {
        match self {
            ResolveError::NoCwd => "the virtual CWD (\".\") is not currently defined"@,
            ResolveError::InvalidReference => "not a valid recent-document reference"@,
            ResolveError::BadReferenceNumber => "the recent-document reference is not a number"@,
            ResolveError::NoMatch => "no documents matched the specifier"@,
            ResolveError::Ambiguous => "specifier should have matched exactly one document; please be more specific"@,
            ResolveError::MissingDocument => "the mirror has no row for a document that it names"@,
            ResolveError::TooManyLinks => "the account has more links than a linkage table can hold"@,
        }
    }

    /// The text of the error.
    pub fn message(&self) -> (m: String)
        ensures
            m@ == self.text(),
    {
        match self {
            ResolveError::NoCwd => "the virtual CWD (\".\") is not currently defined".to_owned(),
            ResolveError::InvalidReference => "not a valid recent-document reference".to_owned(),
            ResolveError::BadReferenceNumber => "the recent-document reference is not a number".to_owned(),
            ResolveError::NoMatch => "no documents matched the specifier".to_owned(),
            ResolveError::Ambiguous => "specifier should have matched exactly one document; please be more specific".to_owned(),
            ResolveError::MissingDocument => "the mirror has no row for a document that it names".to_owned(),
            ResolveError::TooManyLinks => "the account has more links than a linkage table can hold".to_owned(),
        }
    }
}

} // verus!
