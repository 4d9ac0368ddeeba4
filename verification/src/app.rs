//! The state of the application: the options given by the user and the
//! mirror, with the operations that a command performs on them.

use vstd::prelude::*;
use crate::linkage::{
    load_linkage_table, mentions, oriented, LinkageError, LinkageTable, MAX_TABLE_LINKS,
};
use crate::records::{
    folder_mime_type, record_instant, record_row, ChangeRecord, Doc, DocData, DocumentRecord,
    RecordError,
    Timestamp, CLI_CWD_ID,
};
use crate::rows::rows_of;
use crate::store::{
    find_doc, keeps_listing, link_of_account, listing_rows, MirrorStore, StoreData,
};
use crate::sync::{
    apply_changes, changes_outcome, import_records, import_root, listing_outcome, with_document,
    SyncError,
};

verus! {

/// How the mirror is synchronized with the servers before a command runs.
#[derive(Clone, Copy, Debug, PartialEq, Eq, Structural)]
pub enum SyncOption {
    /// Never.
    No,
    /// When the last synchronization is older than the resync delay.
    Auto,
    /// Always.
    Yes,
}

/// Global options for the application.
#[derive(Clone, Copy, Debug, PartialEq, Eq, Structural)]
pub struct ApplicationOptions {
    /// Whether to synchronize with the servers.
    pub sync: SyncOption,
}

/// The time after which an account is synchronized again: five minutes, in
/// nanoseconds.
pub const RESYNC_DELAY_NANOS: i128 = 300_000_000_000;

/// What is kept about one logged-in account besides its credentials.
#[derive(Debug, PartialEq, Eq)]
pub struct AccountData {
    /// The cursor into the change feed of the account.
    pub change_page_token: Option<String>,
    /// The id of the root folder of the account.
    pub root_folder_id: String,
    /// The id of the account in the mirror.
    pub db_id: i32,
    /// The last time the account was synchronized.
    pub last_sync: Option<Timestamp>,
}

/// The runtime state of the application.
pub struct Application {
    /// The global options provided on the command line.
    pub options: ApplicationOptions,
    /// The mirror of the remote store.
    pub store: MirrorStore,
}

/// Whether an account is due for synchronization.
pub open spec fn sync_due(option: SyncOption, last_sync: Option<Timestamp>, now: Timestamp) -> bool {
    match option {
        SyncOption::No => false,
        SyncOption::Yes => true,
        SyncOption::Auto => match last_sync {
            Some(last) => now.nanos_since(last) > RESYNC_DELAY_NANOS,
            None => true,
        },
    }
}

/// Whether the mirror holds a document for each of the ids.
pub open spec fn all_known(docs: Seq<DocData>, ids: Seq<Seq<char>>) -> bool {
    forall|i: int| 0 <= i < ids.len() ==> #[trigger] find_doc(docs, ids[i]) is Some
}

/// The documents with the given ids, in the order of the ids.
pub open spec fn docs_by_id(docs: Seq<DocData>, ids: Seq<Seq<char>>) -> Seq<DocData> {
    Seq::new(ids.len(), |i: int| find_doc(docs, ids[i])->0)
}

impl Application {
    /// The mirror is in order.
    pub open spec fn wf(&self) -> bool {
        self.store.wf()
    }

    /// Sets up the application around a mirror.
    pub fn initialize(options: ApplicationOptions, store: MirrorStore) -> (app: Application)
        ensures
            app.options == options,
            app.store == store,
    {
        Application { options, store }
    }

    /// Whether an account that was last synchronized at `last_sync` is to be
    /// synchronized at `now`: never or always if the options say so, and
    /// otherwise if it has never been synchronized or more than five minutes
    /// have passed.
    pub fn should_sync(&self, last_sync: Option<Timestamp>, now: Timestamp) -> (r: bool)
        ensures
            r == sync_due(self.options.sync, last_sync, now),
    {
        match self.options.sync {
            SyncOption::No => false,
            SyncOption::Yes => true,
            SyncOption::Auto => match last_sync {
                Some(last) => now.elapsed_nanos(&last) > RESYNC_DELAY_NANOS,
                None => true,
            },
        }
    }

    /// Fills the mirror with the documents of an account: first the root
    /// folder, of which the document and its association are stored but no
    /// link, then every record of the full listing. Nothing is deleted.
    ///
    /// On success the account records its root folder and `now` as the time
    /// of its last synchronization. On the first record that fails the pass
    /// stops: the records before it stay stored and the account is left as
    /// it was.
    pub fn import_documents(
        &mut self,
        account: &mut AccountData,
        root: &DocumentRecord,
        files: &Vec<DocumentRecord>,
        now: Timestamp,
    ) -> (r: Result<(), SyncError>)
        requires
            old(self).wf(),
        ensures
            final(self).wf(),
            final(self).options == old(self).options,
            final(self).store@ == import_outcome(
                old(self).store@,
                old(account).db_id,
                *root,
                files@,
            ).0,
            match import_outcome(old(self).store@, old(account).db_id, *root, files@).1 {
                Some(e) => r == Err::<(), SyncError>(e) && *final(account) == *old(account),
                None => r is Ok && final(account).root_folder_id@ == root.id->0@ && final(
                    account
                ).last_sync == Some(now) && final(account).db_id == old(account).db_id && final(
                    account
                ).change_page_token == old(account).change_page_token,
            },
    {
        let account_id: i32 = account.db_id;
        let root_id: String = match import_root_id(root) {
            Some(id) => id,
            None => {
                return Err(SyncError::Record(RecordError::MissingId));
            },
        };
        match import_root(&mut self.store, account_id, root) {
            Ok(()) => {},
            Err(e) => {
                return Err(e);
            },
        }
        match import_records(&mut self.store, account_id, files) {
            Ok(()) => {},
            Err(e) => {
                return Err(e);
            },
        }
        account.root_folder_id = root_id;
        account.last_sync = Some(now);
        Ok(())
    }

    /// Applies the entries of the change feed of an account and then stores
    /// the token at which the feed continues.
    ///
    /// The account must have a token already. On the first entry that fails
    /// the pass stops: the entries before it stay applied and the token of
    /// the account is left as it was.
    pub fn sync_account(
        &mut self,
        account: &mut AccountData,
        changes: &Vec<ChangeRecord>,
        new_token: String,
    ) -> (r: Result<(), SyncError>)
        requires
            old(self).wf(),
        ensures
            final(self).wf(),
            final(self).options == old(self).options,
            final(account).db_id == old(account).db_id,
            final(account).root_folder_id == old(account).root_folder_id,
            final(account).last_sync == old(account).last_sync,
            old(account).change_page_token is None ==> r == Err::<(), SyncError>(
                SyncError::NoChangeToken,
            ) && final(self).store@ == old(self).store@ && final(account).change_page_token is None,
            old(account).change_page_token is Some ==> {
                let outcome = changes_outcome(old(self).store@, old(account).db_id, changes@);
                &&& final(self).store@ == outcome.0
                &&& match outcome.1 {
                    Some(e) => r == Err::<(), SyncError>(e) && final(account).change_page_token
                        == old(account).change_page_token,
                    None => r is Ok && final(account).change_page_token == Some(new_token),
                }
            },
    {
        if account.change_page_token.is_none() {
            return Err(SyncError::NoChangeToken);
        }
        match apply_changes(&mut self.store, account.db_id, changes) {
            Ok(()) => {},
            Err(e) => {
                return Err(e);
            },
        }
        account.change_page_token = Some(new_token);
        Ok(())
    }

    /// The documents with the given ids, in the order of the ids. Every id
    /// must be the id of a document in the mirror.
    pub fn ids_to_docs(&self, ids: &Vec<String>) -> (r: Vec<Doc>)
        requires
            all_known(self.store@.docs, rows_of(ids@)),
        ensures
            rows_of(r@) == docs_by_id(self.store@.docs, rows_of(ids@)),
    {
        let mut out: Vec<Doc> = Vec::new();
        let mut i: usize = 0;
        while i < ids.len()
            invariant
                i <= ids@.len(),
                all_known(self.store@.docs, rows_of(ids@)),
                rows_of(out@) == docs_by_id(self.store@.docs, rows_of(ids@)).subrange(0, i as int),
            decreases ids@.len() - i,
        {
            assert(find_doc(self.store@.docs, rows_of(ids@)[i as int]) is Some);
            let found = self.store.find_document(ids[i].as_str());
            let d = found.unwrap();
            let ghost before = rows_of(out@);
            let ghost row = d@;
            out.push(d);
            proof {
                assert(rows_of(out@) =~= before.push(row));
                assert(rows_of(out@) =~= docs_by_id(self.store@.docs, rows_of(ids@)).subrange(
                    0,
                    i + 1,
                ));
            }
            i += 1;
        }
        proof {
            let all = docs_by_id(self.store@.docs, rows_of(ids@));
            assert(all.subrange(0, ids@.len() as int) =~= all);
        }
        out
    }

    /// The documents with the given ids, in the order of the ids, or `None`
    /// if the mirror lacks one of them.
    pub fn try_ids_to_docs(&self, ids: &Vec<String>) -> (r: Option<Vec<Doc>>)
        ensures
            match r {
                Some(docs) => all_known(self.store@.docs, rows_of(ids@)) && rows_of(docs@)
                    == docs_by_id(self.store@.docs, rows_of(ids@)),
                None => !all_known(self.store@.docs, rows_of(ids@)),
            },
    {
        let mut i: usize = 0;
        while i < ids.len()
            invariant
                i <= ids@.len(),
                forall|k: int|
                    0 <= k < i ==> #[trigger] find_doc(self.store@.docs, rows_of(ids@)[k]) is Some,
            decreases ids@.len() - i,
        {
            if self.store.find_document(ids[i].as_str()).is_none() {
                proof {
                    assert(find_doc(self.store@.docs, rows_of(ids@)[i as int]) is None);
                }
                return None;
            }
            i += 1;
        }
        Some(self.ids_to_docs(ids))
    }

    /// Sets the virtual working directory: the listing of the current
    /// folder then holds this one document. A document that is no folder is
    /// refused and nothing changes.
    pub fn set_cwd(&mut self, doc: &Doc) -> (r: Result<(), NotAFolder>)
        requires
            old(self).wf(),
        ensures
            final(self).wf(),
            final(self).options == old(self).options,
            doc.mime_type@ != folder_mime_type() ==> r is Err && final(self).store@ == old(self).store@,
            doc.mime_type@ == folder_mime_type() ==> r is Ok && final(self).store@ == (StoreData {
                listitems: old(self).store@.listitems.filter(keeps_listing(CLI_CWD_ID))
                    + listing_rows(CLI_CWD_ID, seq![doc.id@]),
                ..old(self).store@
            }),
    {
        if !doc.is_folder() {
            return Err(NotAFolder {  });
        }
        let mut ids: Vec<String> = Vec::new();
        ids.push(doc.id.clone());
        proof {
            assert(rows_of(ids@) =~= seq![doc.id@]);
        }
        self.store.replace_listing(CLI_CWD_ID, &ids);
        Ok(())
    }

    /// Builds the table of the links of one account.
    pub fn load_linkage_table(&self, acct_id: i32, transposed: bool) -> (r: Result<
        LinkageTable,
        LinkageError,
    >)
        ensures
            match r {
                Ok(table) => {
                    let rows = self.store@.links.filter(link_of_account(acct_id));
                    &&& rows.len() <= MAX_TABLE_LINKS
                    &&& table.wf()
                    &&& table.account_id == acct_id
                    &&& table.transposed == transposed
                    &&& table.edge_ids() == oriented(rows, transposed)
                    &&& forall|id: Seq<char>| #[trigger]
                        table.nodes@.contains_key(id) <==> mentions(rows, id)
                },
                Err(e) => self.store@.links.filter(link_of_account(acct_id)).len()
                    > MAX_TABLE_LINKS,
            },
    {
        load_linkage_table(&self.store, acct_id, transposed)
    }
}

/// The error of setting the virtual working directory to a document that is
/// no folder.
#[derive(Clone, Copy, Debug, PartialEq, Eq, Structural)]
pub struct NotAFolder {}

/// The mirror and the error, if any, after a full import: the document of
/// the root record and its association are stored first, without any link;
/// then the records of the listing in order, up to the first record that
/// fails.
pub open spec fn import_outcome(
    s: StoreData,
    account_id: i32,
    root: DocumentRecord,
    files: Seq<DocumentRecord>,
) -> (StoreData, Option<SyncError>) {
    match record_row(root, record_instant(root)) {
        Ok(row) => listing_outcome(with_document(s, account_id, row), account_id, files),
        Err(e) => (s, Some(SyncError::Record(e))),
    }
}

fn import_root_id(root: &DocumentRecord) -> (r: Option<String>)
    ensures
        match r {
            Some(id) => root.id is Some && id@ == root.id->0@,
            None => root.id is None,
        },
{
    match &root.id {
        Some(id) => Some(id.clone()),
        None => None,
    }
}

} // verus!
