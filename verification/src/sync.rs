//! The synchronization rules: how a full listing and how the entries of the
//! change feed are applied to the mirror.
//!
//! A full import only adds: links that the remote store no longer has stay
//! until a change entry for their child arrives. A change entry for a
//! document replaces the links of the account that lead to it.

use vstd::prelude::*;
use crate::records::{
    record_instant, record_row, read_rfc3339, ChangeRecord, DocData, DocumentRecord, LinkData,
    AssociationData, NewAccountAssociation, NewDoc, NewLink, RecordError, Timestamp,
};
use crate::rows::{lemma_filter_members, rows_of};
use crate::store::{
    has_doc, keeps_association, keeps_doc, keeps_link_child, keeps_link_parent, upsert_doc,
    upsert_row, MirrorStore, StoreData,
};

verus! {

/// Why a synchronization pass stopped.
#[derive(Clone, Copy, Debug, PartialEq, Eq, Structural)]
pub enum SyncError {
    /// The account has no change-paging token: it was never initialized.
    NoChangeToken,
    /// The server reported a change of a file without the file's state.
    MissingFile,
    /// A reported document cannot become a row.
    Record(RecordError),
}

/// The ids of the parents that a record names.
pub open spec fn record_parents(rec: DocumentRecord) -> Seq<Seq<char>> {
    match rec.parents {
        Some(v) => rows_of(v@),
        None => Seq::empty(),
    }
}

/// The link table after one link from each of `parents` to `child` has been
/// stored for the account.
pub open spec fn add_links(
    links: Seq<LinkData>,
    account_id: i32,
    parents: Seq<Seq<char>>,
    child: Seq<char>,
) -> Seq<LinkData>
    decreases parents.len(),
{
    if parents.len() == 0 {
        links
    } else {
        upsert_row(
            add_links(links, account_id, parents.drop_last(), child),
            LinkData { account_id, parent_id: parents.last(), child_id: child },
        )
    }
}

/// The mirror after a document and its association with the account have
/// been stored.
pub open spec fn with_document(s: StoreData, account_id: i32, row: DocData) -> StoreData {
    StoreData {
        docs: upsert_doc(s.docs, row),
        associations: upsert_row(
            s.associations,
            AssociationData { doc_id: row.id, account_id },
        ),
        ..s
    }
}

/// The mirror after one record of a full listing has been stored: the
/// document, its association, and a link from each parent. No link is
/// deleted.
pub open spec fn with_listed(
    s: StoreData,
    account_id: i32,
    rec: DocumentRecord,
    row: DocData,
) -> StoreData {
    let t = with_document(s, account_id, row);
    StoreData { links: add_links(t.links, account_id, record_parents(rec), row.id), ..t }
}

/// The mirror after a document has been removed for an account: the links
/// of the account from and to the document, the association of the document
/// with the account, and the document itself are gone. What other accounts
/// hold of the document, their links and their associations, stays.
pub open spec fn without_document(s: StoreData, account_id: i32, id: Seq<char>) -> StoreData {
    StoreData {
        docs: s.docs.filter(keeps_doc(id)),
        associations: s.associations.filter(keeps_association(id, account_id)),
        links: s.links.filter(keeps_link_parent(account_id, id)).filter(
            keeps_link_child(account_id, id),
        ),
        ..s
    }
}

/// The mirror after a changed document has been stored: the document and
/// its association are stored, the links of the account that led to
/// `file_id` are deleted, and one link from each parent that the record
/// names is stored in their place.
pub open spec fn with_changed(
    s: StoreData,
    account_id: i32,
    file_id: Seq<char>,
    rec: DocumentRecord,
    row: DocData,
) -> StoreData {
    let t = with_document(s, account_id, row);
    StoreData {
        links: add_links(
            t.links.filter(keeps_link_child(account_id, file_id)),
            account_id,
            record_parents(rec),
            file_id,
        ),
        ..t
    }
}

/// What one entry of the change feed does to the mirror. `parsed` is the
/// instant that the time text of the entry's file denotes, if any.
///
/// An entry without a file id changes nothing. An entry marked as removed
/// removes the document for the account. Any other entry must carry the
/// file's state, which is then stored.
pub open spec fn change_outcome(
    s: StoreData,
    account_id: i32,
    change: ChangeRecord,
    parsed: Option<Timestamp>,
) -> Result<StoreData, SyncError> {
    if change.file_id is None {
        Ok(s)
    } else if change.removed == Some(true) {
        Ok(without_document(s, account_id, change.file_id->0@))
    } else if change.file is None {
        Err(SyncError::MissingFile)
    } else {
        match record_row(change.file->0, parsed) {
            Ok(row) => Ok(with_changed(s, account_id, change.file_id->0@, change.file->0, row)),
            Err(e) => Err(SyncError::Record(e)),
        }
    }
}

/// The instant that the time text of a change entry's file denotes.
pub open spec fn change_instant(change: ChangeRecord) -> Option<Timestamp> {
    if change.file is None {
        None
    } else {
        record_instant(change.file->0)
    }
}

/// What one record of a full listing does to the mirror.
pub open spec fn listed_outcome(
    s: StoreData,
    account_id: i32,
    rec: DocumentRecord,
    parsed: Option<Timestamp>,
) -> Result<StoreData, SyncError> {
    match record_row(rec, parsed) {
        Ok(row) => Ok(with_listed(s, account_id, rec, row)),
        Err(e) => Err(SyncError::Record(e)),
    }
}

/// The mirror and the error, if any, after the entries of a change feed
/// have been applied in order up to the first one that fails.
pub open spec fn changes_outcome(s: StoreData, account_id: i32, changes: Seq<ChangeRecord>) -> (
    StoreData,
    Option<SyncError>,
)
    decreases changes.len(),
{
    if changes.len() == 0 {
        (s, None)
    } else {
        let before = changes_outcome(s, account_id, changes.drop_last());
        if before.1 is Some {
            before
        } else {
            match change_outcome(
                before.0,
                account_id,
                changes.last(),
                change_instant(changes.last()),
            ) {
                Ok(t) => (t, None),
                Err(e) => (before.0, Some(e)),
            }
        }
    }
}

/// The mirror and the error, if any, after the records of a full listing
/// have been stored in order up to the first one that fails.
pub open spec fn listing_outcome(s: StoreData, account_id: i32, files: Seq<DocumentRecord>) -> (
    StoreData,
    Option<SyncError>,
)
    decreases files.len(),
{
    if files.len() == 0 {
        (s, None)
    } else {
        let before = listing_outcome(s, account_id, files.drop_last());
        if before.1 is Some {
            before
        } else {
            match listed_outcome(before.0, account_id, files.last(), record_instant(files.last())) {
                Ok(t) => (t, None),
                Err(e) => (before.0, Some(e)),
            }
        }
    }
}

fn store_links(store: &mut MirrorStore, account_id: i32, parents: &Option<Vec<String>>, child: &str)
    requires
        old(store).wf(),
    ensures
        final(store).wf(),
        final(store)@ == (StoreData {
            links: add_links(
                old(store)@.links,
                account_id,
                match *parents {
                    Some(v) => rows_of(v@),
                    None => Seq::empty(),
                },
                child@,
            ),
            ..old(store)@
        }),
{
    match parents {
        Some(list) => {
            let ghost ids = rows_of(list@);
            let mut i: usize = 0;
            proof {
                assert(ids.subrange(0, 0) =~= Seq::<Seq<char>>::empty());
            }
            while i < list.len()
                invariant
                    i <= list@.len(),
                    ids == rows_of(list@),
                    store.wf(),
                    store@ == (StoreData {
                        links: add_links(
                            old(store)@.links,
                            account_id,
                            ids.subrange(0, i as int),
                            child@,
                        ),
                        ..old(store)@
                    }),
                decreases list@.len() - i,
            {
                proof {
                    let upto = ids.subrange(0, i + 1);
                    assert(upto.drop_last() =~= ids.subrange(0, i as int));
                    assert(upto.last() == list@[i as int]@);
                }
                let link = NewLink::new(account_id, list[i].as_str(), child);
                store.upsert_link(&link);
                i += 1;
            }
            proof {
                assert(ids.subrange(0, list@.len() as int) =~= ids);
            }
        },
        None => {},
    }
}

fn store_document(store: &mut MirrorStore, account_id: i32, doc: &NewDoc)
    requires
        old(store).wf(),
    ensures
        final(store).wf(),
        final(store)@ == with_document(old(store)@, account_id, doc@),
{
    store.upsert_document(doc);
    let assoc = NewAccountAssociation::new(doc.id, account_id);
    store.upsert_account_association(&assoc);
}

/// Applies one entry of the change feed, given the instant that the time
/// text of its file denotes. On an error the mirror is left as it was.
pub fn apply_change_with(
    store: &mut MirrorStore,
    account_id: i32,
    change: &ChangeRecord,
    parsed: Option<Timestamp>,
) -> (r: Result<(), SyncError>)
    requires
        old(store).wf(),
    ensures
        final(store).wf(),
        match change_outcome(old(store)@, account_id, *change, parsed) {
            Ok(s) => r is Ok && final(store)@ == s,
            Err(e) => r == Err::<(), SyncError>(e) && final(store)@ == old(store)@,
        },
{
    let file_id: &str = match &change.file_id {
        Some(id) => id.as_str(),
        None => {
            return Ok(());
        },
    };
    let removed: bool = match change.removed {
        Some(b) => b,
        None => false,
    };
    if removed {
        store.delete_links_by_parent(account_id, file_id);
        store.delete_links_by_child(account_id, file_id);
        store.delete_account_associations(file_id, account_id);
        store.delete_document(file_id);
        return Ok(());
    }
    let file: &DocumentRecord = match &change.file {
        Some(f) => f,
        None => {
            return Err(SyncError::MissingFile);
        },
    };
    let doc = match NewDoc::assemble(file, parsed) {
        Ok(d) => d,
        Err(e) => {
            return Err(SyncError::Record(e));
        },
    };
    store_document(store, account_id, &doc);
    store.delete_links_by_child(account_id, file_id);
    store_links(store, account_id, &file.parents, file_id);
    Ok(())
}

/// Applies one entry of the change feed. On an error the mirror is left as
/// it was.
pub fn apply_change(store: &mut MirrorStore, account_id: i32, change: &ChangeRecord) -> (r: Result<
    (),
    SyncError,
>)
    requires
        old(store).wf(),
    ensures
        final(store).wf(),
        match change_outcome(old(store)@, account_id, *change, change_instant(*change)) {
            Ok(s) => r is Ok && final(store)@ == s,
            Err(e) => r == Err::<(), SyncError>(e) && final(store)@ == old(store)@,
        },
{
    let parsed: Option<Timestamp> = match &change.file {
        Some(file) => match &file.modified_time {
            Some(text) => read_rfc3339(text.as_str()),
            None => None,
        },
        None => None,
    };
    apply_change_with(store, account_id, change, parsed)
}

/// What the record of the root folder of an account does to the mirror:
/// the document and its association are stored. No link is stored, whatever
/// parents the record names.
pub open spec fn root_outcome(
    s: StoreData,
    account_id: i32,
    rec: DocumentRecord,
    parsed: Option<Timestamp>,
) -> Result<StoreData, SyncError> {
    match record_row(rec, parsed) {
        Ok(row) => Ok(with_document(s, account_id, row)),
        Err(e) => Err(SyncError::Record(e)),
    }
}

/// Stores the record of the root folder of an account, given the instant
/// that its time text denotes. On an error the mirror is left as it was.
pub fn import_root_with(
    store: &mut MirrorStore,
    account_id: i32,
    root: &DocumentRecord,
    parsed: Option<Timestamp>,
) -> (r: Result<(), SyncError>)
    requires
        old(store).wf(),
    ensures
        final(store).wf(),
        match root_outcome(old(store)@, account_id, *root, parsed) {
            Ok(s) => r is Ok && final(store)@ == s,
            Err(e) => r == Err::<(), SyncError>(e) && final(store)@ == old(store)@,
        },
{
    let doc = match NewDoc::assemble(root, parsed) {
        Ok(d) => d,
        Err(e) => {
            return Err(SyncError::Record(e));
        },
    };
    store_document(store, account_id, &doc);
    Ok(())
}

/// Stores the record of the root folder of an account. On an error the
/// mirror is left as it was.
pub fn import_root(store: &mut MirrorStore, account_id: i32, root: &DocumentRecord) -> (r: Result<
    (),
    SyncError,
>)
    requires
        old(store).wf(),
    ensures
        final(store).wf(),
        match root_outcome(old(store)@, account_id, *root, record_instant(*root)) {
            Ok(s) => r is Ok && final(store)@ == s,
            Err(e) => r == Err::<(), SyncError>(e) && final(store)@ == old(store)@,
        },
{
    let parsed: Option<Timestamp> = match &root.modified_time {
        Some(text) => read_rfc3339(text.as_str()),
        None => None,
    };
    import_root_with(store, account_id, root, parsed)
}

/// Stores one record of a full listing, given the instant that its time
/// text denotes. On an error the mirror is left as it was.
pub fn import_record_with(
    store: &mut MirrorStore,
    account_id: i32,
    file: &DocumentRecord,
    parsed: Option<Timestamp>,
) -> (r: Result<(), SyncError>)
    requires
        old(store).wf(),
    ensures
        final(store).wf(),
        match listed_outcome(old(store)@, account_id, *file, parsed) {
            Ok(s) => r is Ok && final(store)@ == s,
            Err(e) => r == Err::<(), SyncError>(e) && final(store)@ == old(store)@,
        },
{
    let doc = match NewDoc::assemble(file, parsed) {
        Ok(d) => d,
        Err(e) => {
            return Err(SyncError::Record(e));
        },
    };
    store_document(store, account_id, &doc);
    store_links(store, account_id, &file.parents, doc.id);
    Ok(())
}

/// Stores one record of a full listing. On an error the mirror is left as
/// it was.
pub fn import_record(store: &mut MirrorStore, account_id: i32, file: &DocumentRecord) -> (r: Result<
    (),
    SyncError,
>)
    requires
        old(store).wf(),
    ensures
        final(store).wf(),
        match listed_outcome(old(store)@, account_id, *file, record_instant(*file)) {
            Ok(s) => r is Ok && final(store)@ == s,
            Err(e) => r == Err::<(), SyncError>(e) && final(store)@ == old(store)@,
        },
{
    let parsed: Option<Timestamp> = match &file.modified_time {
        Some(text) => read_rfc3339(text.as_str()),
        None => None,
    };
    import_record_with(store, account_id, file, parsed)
}

/// Applies the entries of a change feed in the order in which the server
/// delivered them, and stops at the first one that fails. The entries
/// before it stay applied.
pub fn apply_changes(store: &mut MirrorStore, account_id: i32, changes: &Vec<ChangeRecord>) -> (r:
    Result<(), SyncError>)
    requires
        old(store).wf(),
    ensures
        final(store).wf(),
        final(store)@ == changes_outcome(old(store)@, account_id, changes@).0,
        match changes_outcome(old(store)@, account_id, changes@).1 {
            Some(e) => r == Err::<(), SyncError>(e),
            None => r is Ok,
        },
{
    let mut i: usize = 0;
    proof {
        assert(changes@.subrange(0, 0) =~= Seq::<ChangeRecord>::empty());
    }
    while i < changes.len()
        invariant
            i <= changes@.len(),
            store.wf(),
            changes_outcome(old(store)@, account_id, changes@.subrange(0, i as int)) == (
                store@,
                None::<SyncError>,
            ),
        decreases changes@.len() - i,
    {
        proof {
            let upto = changes@.subrange(0, i + 1);
            assert(upto.drop_last() =~= changes@.subrange(0, i as int));
            assert(upto.last() == changes@[i as int]);
        }
        match apply_change(store, account_id, &changes[i]) {
            Ok(()) => {},
            Err(e) => {
                proof {
                    lemma_changes_stop(old(store)@, account_id, changes@, i + 1);
                }
                return Err(e);
            },
        }
        i += 1;
    }
    proof {
        assert(changes@.subrange(0, changes@.len() as int) =~= changes@);
    }
    Ok(())
}

/// Stores the records of a full listing in order, and stops at the first
/// one that fails. The records before it stay stored.
pub fn import_records(store: &mut MirrorStore, account_id: i32, files: &Vec<DocumentRecord>) -> (r:
    Result<(), SyncError>)
    requires
        old(store).wf(),
    ensures
        final(store).wf(),
        final(store)@ == listing_outcome(old(store)@, account_id, files@).0,
        match listing_outcome(old(store)@, account_id, files@).1 {
            Some(e) => r == Err::<(), SyncError>(e),
            None => r is Ok,
        },
{
    let mut i: usize = 0;
    proof {
        assert(files@.subrange(0, 0) =~= Seq::<DocumentRecord>::empty());
    }
    while i < files.len()
        invariant
            i <= files@.len(),
            store.wf(),
            listing_outcome(old(store)@, account_id, files@.subrange(0, i as int)) == (
                store@,
                None::<SyncError>,
            ),
        decreases files@.len() - i,
    {
        proof {
            let upto = files@.subrange(0, i + 1);
            assert(upto.drop_last() =~= files@.subrange(0, i as int));
            assert(upto.last() == files@[i as int]);
        }
        match import_record(store, account_id, &files[i]) {
            Ok(()) => {},
            Err(e) => {
                proof {
                    lemma_listing_stop(old(store)@, account_id, files@, i + 1);
                }
                return Err(e);
            },
        }
        i += 1;
    }
    proof {
        assert(files@.subrange(0, files@.len() as int) =~= files@);
    }
    Ok(())
}

/// Once an entry has failed, the entries after it change nothing.
pub proof fn lemma_changes_stop(s: StoreData, account_id: i32, changes: Seq<ChangeRecord>, k: int)
    requires
        0 <= k <= changes.len(),
        changes_outcome(s, account_id, changes.subrange(0, k)).1 is Some,
    ensures
        changes_outcome(s, account_id, changes) == changes_outcome(
            s,
            account_id,
            changes.subrange(0, k),
        ),
    decreases changes.len() - k,
{
    if k < changes.len() {
        let upto = changes.subrange(0, k + 1);
        assert(upto.drop_last() =~= changes.subrange(0, k));
        lemma_changes_stop(s, account_id, changes, k + 1);
    } else {
        assert(changes.subrange(0, k) =~= changes);
    }
}

/// Once a record has failed, the records after it change nothing.
pub proof fn lemma_listing_stop(s: StoreData, account_id: i32, files: Seq<DocumentRecord>, k: int)
    requires
        0 <= k <= files.len(),
        listing_outcome(s, account_id, files.subrange(0, k)).1 is Some,
    ensures
        listing_outcome(s, account_id, files) == listing_outcome(
            s,
            account_id,
            files.subrange(0, k),
        ),
    decreases files.len() - k,
{
    if k < files.len() {
        let upto = files.subrange(0, k + 1);
        assert(upto.drop_last() =~= files.subrange(0, k));
        lemma_listing_stop(s, account_id, files, k + 1);
    } else {
        assert(files.subrange(0, k) =~= files);
    }
}


/// A change entry without a file id changes nothing and is no error.
pub proof fn lemma_skip_without_file_id(
    s: StoreData,
    account_id: i32,
    change: ChangeRecord,
    parsed: Option<Timestamp>,
)
    requires
        change.file_id is None,
    ensures
        change_outcome(s, account_id, change, parsed) == Ok::<StoreData, SyncError>(s),
{
}

/// After a document has been removed for an account, the mirror has no row
/// of the document, no association of it with the account, and no link of
/// the account from or to it. Every other document, association and link
/// is as before: in particular what other accounts hold of the document.
pub proof fn lemma_removed_is_gone(s: StoreData, account_id: i32, id: Seq<char>)
    ensures
        ({
            let t = without_document(s, account_id, id);
            &&& !has_doc(t.docs, id)
            &&& forall|d: DocData| #[trigger] t.docs.contains(d) <==> s.docs.contains(d) && d.id != id
            &&& forall|a: AssociationData| #[trigger]
                t.associations.contains(a) <==> s.associations.contains(a) && !(a.doc_id == id
                    && a.account_id == account_id)
            &&& forall|l: LinkData| #[trigger]
                t.links.contains(l) <==> s.links.contains(l) && !(l.account_id == account_id && (
                l.parent_id == id || l.child_id == id))
        }),
{
    let t = without_document(s, account_id, id);
    lemma_filter_members(s.docs, keeps_doc(id));
    lemma_filter_members(s.associations, keeps_association(id, account_id));
    let mid = s.links.filter(keeps_link_parent(account_id, id));
    lemma_filter_members(s.links, keeps_link_parent(account_id, id));
    lemma_filter_members(mid, keeps_link_child(account_id, id));
    if has_doc(t.docs, id) {
        let i = choose|i: int| 0 <= i < t.docs.len() && (#[trigger] t.docs[i]).id == id;
        assert(t.docs.contains(t.docs[i]));
    }
    assert forall|l: LinkData| #[trigger]
        t.links.contains(l) <==> s.links.contains(l) && !(l.account_id == account_id && (l.parent_id
            == id || l.child_id == id)) by {
        assert(t.links.contains(l) <==> mid.contains(l) && keeps_link_child(account_id, id)(l));
        assert(mid.contains(l) <==> s.links.contains(l) && keeps_link_parent(account_id, id)(l));
    }
}

/// What `add_links` holds: the links that were there and a link from each
/// of the parents.
pub proof fn lemma_add_links(
    links: Seq<LinkData>,
    account_id: i32,
    parents: Seq<Seq<char>>,
    child: Seq<char>,
)
    ensures
        forall|l: LinkData| #[trigger]
            add_links(links, account_id, parents, child).contains(l) <==> links.contains(l) || (
            l.account_id == account_id && l.child_id == child && parents.contains(l.parent_id)),
    decreases parents.len(),
{
    if parents.len() > 0 {
        let init = parents.drop_last();
        let before = add_links(links, account_id, init, child);
        let fresh = LinkData { account_id, parent_id: parents.last(), child_id: child };
        let here = add_links(links, account_id, parents, child);
        lemma_add_links(links, account_id, init, child);
        assert forall|l: LinkData| #[trigger]
            here.contains(l) <==> links.contains(l) || (l.account_id == account_id && l.child_id
                == child && parents.contains(l.parent_id)) by {
            if here.contains(l) {
                if before.contains(l) {
                    if !links.contains(l) {
                        let k = choose|k: int| 0 <= k < init.len() && init[k] == l.parent_id;
                        assert(parents[k] == l.parent_id);
                    }
                } else {
                    let i = choose|i: int| 0 <= i < here.len() && here[i] == l;
                    assert(l == fresh);
                    assert(parents[parents.len() - 1] == l.parent_id);
                }
            }
            if links.contains(l) {
                assert(before.contains(l));
                let i = choose|i: int| 0 <= i < before.len() && before[i] == l;
                assert(here[i] == l);
            }
            if l.account_id == account_id && l.child_id == child && parents.contains(l.parent_id) {
                let k = choose|k: int| 0 <= k < parents.len() && parents[k] == l.parent_id;
                if k < init.len() {
                    assert(init[k] == l.parent_id);
                    assert(before.contains(l));
                    let i = choose|i: int| 0 <= i < before.len() && before[i] == l;
                    assert(here[i] == l);
                } else {
                    assert(l == fresh);
                    if before.contains(fresh) {
                    } else {
                        assert(here[here.len() - 1] == fresh);
                    }
                }
            }
        }
    }
}

/// After a changed document has been stored, the links of the account that
/// lead to it are exactly one link from each parent that the record names:
/// the links it had before are replaced, not added to. Every other link is
/// as before.
pub proof fn lemma_changed_links_replaced(
    s: StoreData,
    account_id: i32,
    file_id: Seq<char>,
    rec: DocumentRecord,
    row: DocData,
)
    ensures
        ({
            let t = with_changed(s, account_id, file_id, rec, row);
            forall|l: LinkData| #[trigger]
                t.links.contains(l) <==> if l.account_id == account_id && l.child_id == file_id {
                    record_parents(rec).contains(l.parent_id)
                } else {
                    s.links.contains(l)
                }
        }),
{
    let kept = s.links.filter(keeps_link_child(account_id, file_id));
    lemma_filter_members(s.links, keeps_link_child(account_id, file_id));
    lemma_add_links(kept, account_id, record_parents(rec), file_id);
    let t = with_changed(s, account_id, file_id, rec, row);
    assert forall|l: LinkData| #[trigger]
        t.links.contains(l) <==> if l.account_id == account_id && l.child_id == file_id {
            record_parents(rec).contains(l.parent_id)
        } else {
            s.links.contains(l)
        } by {
        assert(kept.contains(l) <==> s.links.contains(l) && keeps_link_child(account_id, file_id)(
            l,
        ));
    }
}


/// What a table holds after a row has been stored: what it held, and the
/// row.
pub proof fn lemma_upsert_row_members<A>(rows: Seq<A>, r: A)
    ensures
        forall|x: A| #[trigger] upsert_row(rows, r).contains(x) <==> rows.contains(x) || x == r,
{
    let out = upsert_row(rows, r);
    assert forall|x: A| #[trigger] out.contains(x) <==> rows.contains(x) || x == r by {
        if out.contains(x) && !rows.contains(x) {
            let i = choose|i: int| 0 <= i < out.len() && out[i] == x;
            if i < rows.len() {
                assert(rows[i] == x);
            }
        }
        if rows.contains(x) {
            let i = choose|i: int| 0 <= i < rows.len() && rows[i] == x;
            assert(out[i] == x);
        }
        if x == r && !rows.contains(r) {
            assert(out[rows.len() as int] == r);
        }
    }
}

/// One entry of the change feed of an account leaves the links and the
/// associations of every other account as they were.
pub proof fn lemma_change_spares_others(
    s: StoreData,
    account_id: i32,
    change: ChangeRecord,
    parsed: Option<Timestamp>,
)
    ensures
        change_outcome(s, account_id, change, parsed) matches Ok(t) ==> {
            &&& forall|l: LinkData|
                l.account_id != account_id ==> (#[trigger] t.links.contains(l)
                    <==> s.links.contains(l))
            &&& forall|a: AssociationData|
                a.account_id != account_id ==> (#[trigger] t.associations.contains(a)
                    <==> s.associations.contains(a))
        },
{
    if change.file_id is Some {
        let id = change.file_id->0@;
        if change.removed == Some(true) {
            lemma_removed_is_gone(s, account_id, id);
        } else if change.file is Some {
            match record_row(change.file->0, parsed) {
                Ok(row) => {
                    lemma_changed_links_replaced(s, account_id, id, change.file->0, row);
                    lemma_upsert_row_members(
                        s.associations,
                        AssociationData { doc_id: row.id, account_id },
                    );
                },
                Err(_) => {},
            }
        }
    }
}

/// A synchronization of an account leaves the links and the associations
/// of every other account as they were, whether it succeeds or stops at an
/// entry that fails.
pub proof fn lemma_sync_spares_others(s: StoreData, account_id: i32, changes: Seq<ChangeRecord>)
    ensures
        forall|l: LinkData|
            l.account_id != account_id ==> (#[trigger] changes_outcome(
                s,
                account_id,
                changes,
            ).0.links.contains(l) <==> s.links.contains(l)),
        forall|a: AssociationData|
            a.account_id != account_id ==> (#[trigger] changes_outcome(
                s,
                account_id,
                changes,
            ).0.associations.contains(a) <==> s.associations.contains(a)),
    decreases changes.len(),
{
    if changes.len() > 0 {
        lemma_sync_spares_others(s, account_id, changes.drop_last());
        let before = changes_outcome(s, account_id, changes.drop_last());
        lemma_change_spares_others(
            before.0,
            account_id,
            changes.last(),
            change_instant(changes.last()),
        );
    }
}

} // verus!
