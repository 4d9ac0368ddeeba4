//! The local mirror: five tables held in memory, each a sequence of rows with
//! distinct keys.
//!
//! Every operation is stated over [`StoreData`], the rows of the tables in
//! their order. A row that is replaced keeps its place; a new row goes to the
//! end.

use vstd::prelude::*;
use crate::records::{
    Account, AccountAssociation, AccountRowData, AssociationData, Doc, DocData, Link, LinkData,
    ListItem, ListItemData, NewAccountAssociation, NewDoc, NewLink,
};
use crate::pattern::{like_chars, like_match};
use crate::rows::{
    distinct_by, lemma_filter_distinct, lemma_filter_members, lemma_keep_is_filter,
    lemma_keep_rows, remove_flagged, rows_of,
};

verus! {

/// The rows of the five tables.
pub struct StoreData {
    pub docs: Seq<DocData>,
    pub links: Seq<LinkData>,
    pub associations: Seq<AssociationData>,
    pub listitems: Seq<ListItemData>,
    pub accounts: Seq<AccountRowData>,
}

/// The key of a document row: its id.
pub open spec fn doc_key() -> spec_fn(DocData) -> Seq<char> {
    |d: DocData| d.id
}

/// The key of a link row: the whole row.
pub open spec fn link_key() -> spec_fn(LinkData) -> LinkData {
    |l: LinkData| l
}

/// The key of an association row: the whole row.
pub open spec fn association_key() -> spec_fn(AssociationData) -> AssociationData {
    |a: AssociationData| a
}

/// The key of a list item: its listing and its position.
pub open spec fn item_key() -> spec_fn(ListItemData) -> (i32, i32) {
    |r: ListItemData| (r.listing_id, r.position)
}

/// The key of an account row: its id.
pub open spec fn account_key() -> spec_fn(AccountRowData) -> i32 {
    |a: AccountRowData| a.id
}

/// Every table has distinct keys.
pub open spec fn store_wf(s: StoreData) -> bool {
    &&& distinct_by(s.docs, doc_key())
    &&& distinct_by(s.links, link_key())
    &&& distinct_by(s.associations, association_key())
    &&& distinct_by(s.listitems, item_key())
    &&& distinct_by(s.accounts, account_key())
}

/// The store without any row.
pub open spec fn empty_store() -> StoreData {
    StoreData {
        docs: Seq::empty(),
        links: Seq::empty(),
        associations: Seq::empty(),
        listitems: Seq::empty(),
        accounts: Seq::empty(),
    }
}

/// Whether some document row has the id.
pub open spec fn has_doc(rows: Seq<DocData>, id: Seq<char>) -> bool {
    exists|i: int| 0 <= i < rows.len() && (#[trigger] rows[i]).id == id
}

/// `i` is the place of the first document row with the id.
pub open spec fn is_first_doc(rows: Seq<DocData>, id: Seq<char>, i: int) -> bool {
    &&& 0 <= i < rows.len()
    &&& rows[i].id == id
    &&& forall|k: int| 0 <= k < i ==> (#[trigger] rows[k]).id != id
}

/// The place of the first document row with the id.
pub open spec fn doc_index(rows: Seq<DocData>, id: Seq<char>) -> int {
    choose|i: int| is_first_doc(rows, id, i)
}

/// The document row with the id, if there is one.
pub open spec fn find_doc(rows: Seq<DocData>, id: Seq<char>) -> Option<DocData> {
    if has_doc(rows, id) {
        Some(rows[doc_index(rows, id)])
    } else {
        None
    }
}

/// The document table after `d` has replaced the row with its id or, where
/// there was none, has been added at the end.
pub open spec fn upsert_doc(rows: Seq<DocData>, d: DocData) -> Seq<DocData> {
    if has_doc(rows, d.id) {
        rows.update(doc_index(rows, d.id), d)
    } else {
        rows.push(d)
    }
}

/// A table after the row `r` has been added unless it was there.
pub open spec fn upsert_row<A>(rows: Seq<A>, r: A) -> Seq<A> {
    if rows.contains(r) {
        rows
    } else {
        rows.push(r)
    }
}

/// Accepts the documents whose id differs from `id`.
pub open spec fn keeps_doc(id: Seq<char>) -> spec_fn(DocData) -> bool {
    |d: DocData| d.id != id
}

/// Accepts the links that are not links of the account to the child `id`.
pub open spec fn keeps_link_child(account_id: i32, id: Seq<char>) -> spec_fn(LinkData) -> bool {
    |l: LinkData| !(l.account_id == account_id && l.child_id == id)
}

/// Accepts the links that are not links of the account from the parent `id`.
pub open spec fn keeps_link_parent(account_id: i32, id: Seq<char>) -> spec_fn(LinkData) -> bool {
    |l: LinkData| !(l.account_id == account_id && l.parent_id == id)
}

/// Accepts the associations other than that of the document `id` with the
/// account.
pub open spec fn keeps_association(id: Seq<char>, account_id: i32) -> spec_fn(
    AssociationData,
) -> bool {
    |a: AssociationData| !(a.doc_id == id && a.account_id == account_id)
}

/// Accepts the items of listings other than `listing_id`.
pub open spec fn keeps_listing(listing_id: i32) -> spec_fn(ListItemData) -> bool {
    |r: ListItemData| r.listing_id != listing_id
}

/// The items of a listing that holds the given documents in order.
pub open spec fn listing_rows(listing_id: i32, ids: Seq<Seq<char>>) -> Seq<ListItemData> {
    Seq::new(
        ids.len(),
        |i: int| ListItemData { listing_id, position: i as i32, doc_id: ids[i] },
    )
}

/// The first place of an id is the only one that `doc_index` can give.
pub proof fn lemma_first_doc(rows: Seq<DocData>, id: Seq<char>, i: int)
    requires
        is_first_doc(rows, id, i),
    ensures
        has_doc(rows, id),
        doc_index(rows, id) == i,
{
    let j = doc_index(rows, id);
    assert(is_first_doc(rows, id, j));
    if j < i {
        assert(rows[j].id != id);
    }
    if i < j {
        assert(rows[i].id != id);
    }
}

/// Replacing or adding a document keeps the ids distinct.
pub proof fn lemma_upsert_doc_distinct(rows: Seq<DocData>, d: DocData)
    requires
        distinct_by(rows, doc_key()),
    ensures
        distinct_by(upsert_doc(rows, d), doc_key()),
{
    let out = upsert_doc(rows, d);
    if has_doc(rows, d.id) {
        let w = choose|i: int| 0 <= i < rows.len() && (#[trigger] rows[i]).id == d.id;
        lemma_first_exists(rows, d.id, w);
        let p = doc_index(rows, d.id);
        assert(is_first_doc(rows, d.id, p));
        assert forall|i: int, j: int| 0 <= i < j < out.len() implies doc_key()(#[trigger] out[i])
            != doc_key()(#[trigger] out[j]) by {
            assert(doc_key()(rows[i]) != doc_key()(rows[j]));
            assert(doc_key()(rows[p]) == d.id);
        }
    } else {
        assert forall|i: int, j: int| 0 <= i < j < out.len() implies doc_key()(#[trigger] out[i])
            != doc_key()(#[trigger] out[j]) by {
            if j < rows.len() {
                assert(doc_key()(rows[i]) != doc_key()(rows[j]));
            } else {
                assert(rows[i].id != d.id);
            }
        }
    }
}

/// Where a row has the id, there is a first such row.
pub proof fn lemma_first_exists(rows: Seq<DocData>, id: Seq<char>, w: int)
    requires
        0 <= w < rows.len(),
        rows[w].id == id,
    ensures
        is_first_doc(rows, id, doc_index(rows, id)),
        doc_index(rows, id) <= w,
    decreases w,
{
    if exists|k: int| 0 <= k < w && (#[trigger] rows[k]).id == id {
        let k = choose|k: int| 0 <= k < w && (#[trigger] rows[k]).id == id;
        lemma_first_exists(rows, id, k);
    } else {
        assert(is_first_doc(rows, id, w));
        lemma_first_doc(rows, id, w);
    }
}

/// Adding a row that may be there already keeps whole rows distinct.
pub proof fn lemma_upsert_row_distinct<A>(rows: Seq<A>, r: A, key: spec_fn(A) -> A)
    requires
        distinct_by(rows, key),
        forall|a: A| #[trigger] key(a) == a,
    ensures
        distinct_by(upsert_row(rows, r), key),
{
    let out = upsert_row(rows, r);
    if !rows.contains(r) {
        assert forall|i: int, j: int| 0 <= i < j < out.len() implies key(#[trigger] out[i]) != key(
            #[trigger] out[j],
        ) by {
            if j < rows.len() {
                assert(key(rows[i]) != key(rows[j]));
            } else {
                assert(rows.contains(rows[i]));
            }
        }
    }
}

/// The mirror of the remote store.
pub struct MirrorStore {
    docs: Vec<Doc>,
    links: Vec<Link>,
    associations: Vec<AccountAssociation>,
    listitems: Vec<ListItem>,
    accounts: Vec<Account>,
}

impl View for MirrorStore {
    type V = StoreData;

    closed spec fn view(&self) -> StoreData {
        StoreData {
            docs: rows_of(self.docs@),
            links: rows_of(self.links@),
            associations: rows_of(self.associations@),
            listitems: rows_of(self.listitems@),
            accounts: rows_of(self.accounts@),
        }
    }
}

impl MirrorStore {
    /// Every table has distinct keys.
    pub open spec fn wf(&self) -> bool {
        store_wf(self@)
    }

    /// A mirror without any row.
    pub fn new() -> (s: MirrorStore)
        ensures
            s.wf(),
            s@ == empty_store(),
    {
        let s = MirrorStore {
            docs: Vec::new(),
            links: Vec::new(),
            associations: Vec::new(),
            listitems: Vec::new(),
            accounts: Vec::new(),
        };
        proof {
            assert(s@.docs =~= Seq::empty());
            assert(s@.links =~= Seq::empty());
            assert(s@.associations =~= Seq::empty());
            assert(s@.listitems =~= Seq::empty());
            assert(s@.accounts =~= Seq::empty());
        }
        s
    }

    fn doc_position(&self, id: &String) -> (r: Option<usize>)
        ensures
            match r {
                Some(i) => is_first_doc(self@.docs, id@, i as int),
                None => !has_doc(self@.docs, id@),
            },
    {
        let mut i: usize = 0;
        while i < self.docs.len()
            invariant
                i <= self.docs@.len(),
                forall|k: int| 0 <= k < i ==> (#[trigger] self@.docs[k]).id != id@,
            decreases self.docs@.len() - i,
        {
            if self.docs[i].id == *id {
                return Some(i);
            }
            i += 1;
        }
        None
    }

    /// Stores a document: the row with the same id is replaced, or the
    /// document is added.
    pub fn upsert_document(&mut self, doc: &NewDoc)
        requires
            old(self).wf(),
        ensures
            final(self).wf(),
            final(self)@ == (StoreData { docs: upsert_doc(old(self)@.docs, doc@), ..old(self)@ }),
    {
        let row = Doc {
            id: doc.id.to_owned(),
            name: doc.name.to_owned(),
            mime_type: doc.mime_type.to_owned(),
            modified_time: doc.modified_time,
            starred: doc.starred,
            trashed: doc.trashed,
        };
        assert(row@ == doc@);
        proof {
            lemma_upsert_doc_distinct(self@.docs, doc@);
        }
        match self.doc_position(&row.id) {
            Some(i) => {
                proof {
                    lemma_first_doc(self@.docs, doc@.id, i as int);
                }
                self.docs.set(i, row);
                proof {
                    assert(self@.docs =~= upsert_doc(old(self)@.docs, doc@));
                }
            },
            None => {
                self.docs.push(row);
                proof {
                    assert(self@.docs =~= upsert_doc(old(self)@.docs, doc@));
                }
            },
        }
    }

    /// Stores a link unless it is there already.
    pub fn upsert_link(&mut self, link: &NewLink)
        requires
            old(self).wf(),
        ensures
            final(self).wf(),
            final(self)@ == (StoreData { links: upsert_row(old(self)@.links, link@), ..old(self)@ }),
    {
        let row = Link {
            account_id: link.account_id,
            parent_id: link.parent_id.to_owned(),
            child_id: link.child_id.to_owned(),
        };
        assert(row@ == link@);
        let mut i: usize = 0;
        while i < self.links.len()
            invariant
                i <= self.links@.len(),
                row@ == link@,
                self.wf(),
                self@ == old(self)@,
                forall|k: int| 0 <= k < i ==> #[trigger] self@.links[k] != link@,
            decreases self.links@.len() - i,
        {
            let l = &self.links[i];
            if l.account_id == row.account_id && l.parent_id == row.parent_id && l.child_id
                == row.child_id {
                proof {
                    assert(self@.links[i as int] == link@);
                    assert(self@.links.contains(link@));
                }
                return;
            }
            i += 1;
        }
        proof {
            lemma_upsert_row_distinct(self@.links, link@, link_key());
        }
        self.links.push(row);
        proof {
            assert(self@.links =~= upsert_row(old(self)@.links, link@));
        }
    }

    /// Stores the association of a document with an account unless it is
    /// there already.
    pub fn upsert_account_association(&mut self, assoc: &NewAccountAssociation)
        requires
            old(self).wf(),
        ensures
            final(self).wf(),
            final(self)@ == (StoreData {
                associations: upsert_row(old(self)@.associations, assoc@),
                ..old(self)@
            }),
    {
        let row = AccountAssociation {
            doc_id: assoc.doc_id.to_owned(),
            account_id: assoc.account_id,
        };
        assert(row@ == assoc@);
        let mut i: usize = 0;
        while i < self.associations.len()
            invariant
                i <= self.associations@.len(),
                row@ == assoc@,
                self.wf(),
                self@ == old(self)@,
                forall|k: int| 0 <= k < i ==> #[trigger] self@.associations[k] != assoc@,
            decreases self.associations@.len() - i,
        {
            let a = &self.associations[i];
            if a.account_id == row.account_id && a.doc_id == row.doc_id {
                proof {
                    assert(self@.associations[i as int] == assoc@);
                    assert(self@.associations.contains(assoc@));
                }
                return;
            }
            i += 1;
        }
        proof {
            lemma_upsert_row_distinct(self@.associations, assoc@, association_key());
        }
        self.associations.push(row);
        proof {
            assert(self@.associations =~= upsert_row(old(self)@.associations, assoc@));
        }
    }

    /// Deletes the links of an account that lead to the child `child_id`.
    pub fn delete_links_by_child(&mut self, account_id: i32, child_id: &str)
        requires
            old(self).wf(),
        ensures
            final(self).wf(),
            final(self)@ == (StoreData {
                links: old(self)@.links.filter(keeps_link_child(account_id, child_id@)),
                ..old(self)@
            }),
    {
        let child: String = child_id.to_owned();
        let ghost pred = keeps_link_child(account_id, child_id@);
        let mut flags: Vec<bool> = Vec::new();
        let mut i: usize = 0;
        while i < self.links.len()
            invariant
                i <= self.links@.len(),
                flags@.len() == i,
                child@ == child_id@,
                pred == keeps_link_child(account_id, child_id@),
                forall|k: int| 0 <= k < i ==> #[trigger] flags@[k] == !pred(self@.links[k]),
            decreases self.links@.len() - i,
        {
            let l = &self.links[i];
            flags.push(l.account_id == account_id && l.child_id == child);
            i += 1;
        }
        proof {
            lemma_keep_rows(self.links@, flags@);
            lemma_keep_is_filter(self@.links, flags@, pred);
            lemma_filter_distinct(self@.links, pred, link_key());
        }
        remove_flagged(&mut self.links, &flags);
    }

    /// Deletes the links of an account that lead from the parent `parent_id`.
    pub fn delete_links_by_parent(&mut self, account_id: i32, parent_id: &str)
        requires
            old(self).wf(),
        ensures
            final(self).wf(),
            final(self)@ == (StoreData {
                links: old(self)@.links.filter(keeps_link_parent(account_id, parent_id@)),
                ..old(self)@
            }),
    {
        let parent: String = parent_id.to_owned();
        let ghost pred = keeps_link_parent(account_id, parent_id@);
        let mut flags: Vec<bool> = Vec::new();
        let mut i: usize = 0;
        while i < self.links.len()
            invariant
                i <= self.links@.len(),
                flags@.len() == i,
                parent@ == parent_id@,
                pred == keeps_link_parent(account_id, parent_id@),
                forall|k: int| 0 <= k < i ==> #[trigger] flags@[k] == !pred(self@.links[k]),
            decreases self.links@.len() - i,
        {
            let l = &self.links[i];
            flags.push(l.account_id == account_id && l.parent_id == parent);
            i += 1;
        }
        proof {
            lemma_keep_rows(self.links@, flags@);
            lemma_keep_is_filter(self@.links, flags@, pred);
            lemma_filter_distinct(self@.links, pred, link_key());
        }
        remove_flagged(&mut self.links, &flags);
    }

    /// Deletes the association of the document `doc_id` with the account.
    /// The associations of the document with other accounts stay.
    pub fn delete_account_associations(&mut self, doc_id: &str, account_id: i32)
        requires
            old(self).wf(),
        ensures
            final(self).wf(),
            final(self)@ == (StoreData {
                associations: old(self)@.associations.filter(
                    keeps_association(doc_id@, account_id),
                ),
                ..old(self)@
            }),
    {
        let id: String = doc_id.to_owned();
        let ghost pred = keeps_association(doc_id@, account_id);
        let mut flags: Vec<bool> = Vec::new();
        let mut i: usize = 0;
        while i < self.associations.len()
            invariant
                i <= self.associations@.len(),
                flags@.len() == i,
                id@ == doc_id@,
                pred == keeps_association(doc_id@, account_id),
                forall|k: int| 0 <= k < i ==> #[trigger] flags@[k] == !pred(self@.associations[k]),
            decreases self.associations@.len() - i,
        {
            flags.push(
                self.associations[i].account_id == account_id && self.associations[i].doc_id == id,
            );
            i += 1;
        }
        proof {
            lemma_keep_rows(self.associations@, flags@);
            lemma_keep_is_filter(self@.associations, flags@, pred);
            lemma_filter_distinct(self@.associations, pred, association_key());
        }
        remove_flagged(&mut self.associations, &flags);
    }

    /// Deletes the document `id`.
    pub fn delete_document(&mut self, id: &str)
        requires
            old(self).wf(),
        ensures
            final(self).wf(),
            final(self)@ == (StoreData {
                docs: old(self)@.docs.filter(keeps_doc(id@)),
                ..old(self)@
            }),
    {
        let wanted: String = id.to_owned();
        let ghost pred = keeps_doc(id@);
        let mut flags: Vec<bool> = Vec::new();
        let mut i: usize = 0;
        while i < self.docs.len()
            invariant
                i <= self.docs@.len(),
                flags@.len() == i,
                wanted@ == id@,
                pred == keeps_doc(id@),
                forall|k: int| 0 <= k < i ==> #[trigger] flags@[k] == !pred(self@.docs[k]),
            decreases self.docs@.len() - i,
        {
            flags.push(self.docs[i].id == wanted);
            i += 1;
        }
        proof {
            lemma_keep_rows(self.docs@, flags@);
            lemma_keep_is_filter(self@.docs, flags@, pred);
            lemma_filter_distinct(self@.docs, pred, doc_key());
        }
        remove_flagged(&mut self.docs, &flags);
    }

    /// Replaces a listing: its items are deleted, then one item is stored
    /// for each of the given documents, at its place in the list.
    pub fn replace_listing(&mut self, listing_id: i32, ids: &Vec<String>)
        requires
            old(self).wf(),
            ids@.len() <= i32::MAX,
        ensures
            final(self).wf(),
            final(self)@ == (StoreData {
                listitems: old(self)@.listitems.filter(keeps_listing(listing_id)) + listing_rows(
                    listing_id,
                    rows_of(ids@),
                ),
                ..old(self)@
            }),
    {
        let ghost pred = keeps_listing(listing_id);
        let ghost fresh = listing_rows(listing_id, rows_of(ids@));
        let mut flags: Vec<bool> = Vec::new();
        let mut i: usize = 0;
        while i < self.listitems.len()
            invariant
                i <= self.listitems@.len(),
                flags@.len() == i,
                pred == keeps_listing(listing_id),
                forall|k: int| 0 <= k < i ==> #[trigger] flags@[k] == !pred(self@.listitems[k]),
            decreases self.listitems@.len() - i,
        {
            flags.push(self.listitems[i].listing_id == listing_id);
            i += 1;
        }
        proof {
            lemma_keep_rows(self.listitems@, flags@);
            lemma_keep_is_filter(self@.listitems, flags@, pred);
            lemma_filter_distinct(self@.listitems, pred, item_key());
            lemma_filter_members(self@.listitems, pred);
        }
        remove_flagged(&mut self.listitems, &flags);
        let ghost kept = self@.listitems;
        let mut j: usize = 0;
        while j < ids.len()
            invariant
                j <= ids@.len(),
                ids@.len() <= i32::MAX,
                fresh == listing_rows(listing_id, rows_of(ids@)),
                self@.listitems == kept + fresh.subrange(0, j as int),
                self@.docs == old(self)@.docs,
                self@.links == old(self)@.links,
                self@.associations == old(self)@.associations,
                self@.accounts == old(self)@.accounts,
            decreases ids@.len() - j,
        {
            let item = ListItem {
                listing_id,
                position: j as i32,
                doc_id: ids[j].clone(),
            };
            let ghost before = self@.listitems;
            let ghost item_row = item@;
            self.listitems.push(item);
            proof {
                assert(item_row == fresh[j as int]);
                assert(self@.listitems =~= before.push(item_row));
                assert(self@.listitems =~= kept + fresh.subrange(0, j + 1));
            }
            j += 1;
        }
        proof {
            assert(fresh.subrange(0, ids@.len() as int) =~= fresh);
            crate::snapshots::lemma_replaced_distinct(
                old(self)@.listitems,
                listing_id,
                rows_of(ids@),
            );
        }
    }
}


/// Accepts the documents whose name matches the pattern.
pub open spec fn name_matches(pattern: Seq<char>) -> spec_fn(DocData) -> bool {
    |d: DocData| like_match(pattern, d.name)
}

/// Accepts the links of one account.
pub open spec fn link_of_account(account_id: i32) -> spec_fn(LinkData) -> bool {
    |l: LinkData| l.account_id == account_id
}

/// Whether some account row has the id.
pub open spec fn has_account(rows: Seq<AccountRowData>, id: i32) -> bool {
    exists|i: int| 0 <= i < rows.len() && (#[trigger] rows[i]).id == id
}

/// The place of an account row with the id; there is one such row at most
/// where the keys are distinct.
pub open spec fn account_index(rows: Seq<AccountRowData>, id: i32) -> int {
    choose|i: int| 0 <= i < rows.len() && (#[trigger] rows[i]).id == id
}

/// The accounts through which a document is visible: for each association
/// of the document, in the order of the associations, the row of its
/// account.
pub open spec fn accounts_of(
    associations: Seq<AssociationData>,
    accounts: Seq<AccountRowData>,
    doc_id: Seq<char>,
) -> Seq<AccountRowData>
    decreases associations.len(),
{
    if associations.len() == 0 {
        Seq::empty()
    } else {
        let before = accounts_of(associations.drop_last(), accounts, doc_id);
        let a = associations.last();
        if a.doc_id == doc_id && has_account(accounts, a.account_id) {
            before.push(accounts[account_index(accounts, a.account_id)])
        } else {
            before
        }
    }
}

/// The documents of a listing: for each item of the listing, in the order
/// of the items, the document that it names, if the mirror holds it.
pub open spec fn listed_docs(
    items: Seq<ListItemData>,
    docs: Seq<DocData>,
    listing_id: i32,
) -> Seq<DocData>
    decreases items.len(),
{
    if items.len() == 0 {
        Seq::empty()
    } else {
        let before = listed_docs(items.drop_last(), docs, listing_id);
        let item = items.last();
        if item.listing_id == listing_id && has_doc(docs, item.doc_id) {
            before.push(docs[doc_index(docs, item.doc_id)])
        } else {
            before
        }
    }
}

/// Whether a listing has an item at a position.
pub open spec fn has_item(rows: Seq<ListItemData>, listing_id: i32, position: i32) -> bool {
    exists|i: int|
        0 <= i < rows.len() && (#[trigger] rows[i]).listing_id == listing_id && rows[i].position
            == position
}

/// The place of the item of a listing at a position.
pub open spec fn item_index(rows: Seq<ListItemData>, listing_id: i32, position: i32) -> int {
    choose|i: int|
        0 <= i < rows.len() && (#[trigger] rows[i]).listing_id == listing_id && rows[i].position
            == position
}

/// One more row in front of a filter either joins what it has let through
/// or is dropped.
pub proof fn lemma_filter_step<A>(rows: Seq<A>, pred: spec_fn(A) -> bool, i: int)
    requires
        0 <= i < rows.len(),
    ensures
        rows.subrange(0, i + 1).filter(pred) == if pred(rows[i]) {
            rows.subrange(0, i).filter(pred).push(rows[i])
        } else {
            rows.subrange(0, i).filter(pred)
        },
{
    reveal(Seq::filter);
    assert(rows.subrange(0, i + 1).drop_last() =~= rows.subrange(0, i));
    assert(rows.subrange(0, i + 1).last() == rows[i]);
}

impl MirrorStore {
    /// Looks up a document by its id.
    pub fn find_document(&self, id: &str) -> (r: Option<Doc>)
        ensures
            match r {
                Some(d) => find_doc(self@.docs, id@) == Some(d@),
                None => find_doc(self@.docs, id@) is None,
            },
    {
        let wanted: String = id.to_owned();
        match self.doc_position(&wanted) {
            Some(i) => {
                proof {
                    lemma_first_doc(self@.docs, id@, i as int);
                }
                Some(self.docs[i].clone())
            },
            None => None,
        }
    }

    /// All documents, in the order of their rows.
    pub fn all_documents(&self) -> (r: Vec<Doc>)
        ensures
            rows_of(r@) == self@.docs,
    {
        let mut out: Vec<Doc> = Vec::new();
        let mut i: usize = 0;
        while i < self.docs.len()
            invariant
                i <= self.docs@.len(),
                rows_of(out@) == self@.docs.subrange(0, i as int),
            decreases self.docs@.len() - i,
        {
            let ghost before = rows_of(out@);
            let d = self.docs[i].clone();
            let ghost row = d@;
            out.push(d);
            proof {
                assert(rows_of(out@) =~= before.push(row));
                assert(rows_of(out@) =~= self@.docs.subrange(0, i + 1));
            }
            i += 1;
        }
        proof {
            assert(self@.docs.subrange(0, self.docs@.len() as int) =~= self@.docs);
        }
        out
    }

    /// The documents whose name matches the pattern, in the order of their
    /// rows.
    pub fn documents_like(&self, pattern: &Vec<char>) -> (r: Vec<Doc>)
        ensures
            rows_of(r@) == self@.docs.filter(name_matches(pattern@)),
    {
        let ghost pred = name_matches(pattern@);
        let mut out: Vec<Doc> = Vec::new();
        let mut i: usize = 0;
        proof {
            reveal(Seq::filter);
            assert(self@.docs.subrange(0, 0) =~= Seq::<DocData>::empty());
            assert(rows_of(out@) =~= Seq::<DocData>::empty());
        }
        while i < self.docs.len()
            invariant
                i <= self.docs@.len(),
                pred == name_matches(pattern@),
                rows_of(out@) == self@.docs.subrange(0, i as int).filter(pred),
            decreases self.docs@.len() - i,
        {
            proof {
                lemma_filter_step(self@.docs, pred, i as int);
            }
            let name = crate::pattern::chars_of(self.docs[i].name.as_str());
            if like_chars(pattern, &name) {
                let ghost before = rows_of(out@);
                let d = self.docs[i].clone();
                let ghost row = d@;
                out.push(d);
                proof {
                    assert(rows_of(out@) =~= before.push(row));
                }
            }
            i += 1;
        }
        proof {
            assert(self@.docs.subrange(0, self.docs@.len() as int) =~= self@.docs);
        }
        out
    }

    /// The links of one account, in the order of their rows.
    pub fn links_of_account(&self, account_id: i32) -> (r: Vec<Link>)
        ensures
            rows_of(r@) == self@.links.filter(link_of_account(account_id)),
    {
        let ghost pred = link_of_account(account_id);
        let mut out: Vec<Link> = Vec::new();
        let mut i: usize = 0;
        proof {
            reveal(Seq::filter);
            assert(self@.links.subrange(0, 0) =~= Seq::<LinkData>::empty());
            assert(rows_of(out@) =~= Seq::<LinkData>::empty());
        }
        while i < self.links.len()
            invariant
                i <= self.links@.len(),
                pred == link_of_account(account_id),
                rows_of(out@) == self@.links.subrange(0, i as int).filter(pred),
            decreases self.links@.len() - i,
        {
            proof {
                lemma_filter_step(self@.links, pred, i as int);
            }
            if self.links[i].account_id == account_id {
                let ghost before = rows_of(out@);
                let l = self.links[i].clone();
                let ghost row = l@;
                out.push(l);
                proof {
                    assert(rows_of(out@) =~= before.push(row));
                }
            }
            i += 1;
        }
        proof {
            assert(self@.links.subrange(0, self.links@.len() as int) =~= self@.links);
        }
        out
    }

    /// All links, in the order of their rows.
    pub fn all_links(&self) -> (r: Vec<Link>)
        ensures
            rows_of(r@) == self@.links,
    {
        let mut out: Vec<Link> = Vec::new();
        let mut i: usize = 0;
        while i < self.links.len()
            invariant
                i <= self.links@.len(),
                rows_of(out@) == self@.links.subrange(0, i as int),
            decreases self.links@.len() - i,
        {
            let ghost before = rows_of(out@);
            let l = self.links[i].clone();
            let ghost row = l@;
            out.push(l);
            proof {
                assert(rows_of(out@) =~= before.push(row));
                assert(rows_of(out@) =~= self@.links.subrange(0, i + 1));
            }
            i += 1;
        }
        proof {
            assert(self@.links.subrange(0, self.links@.len() as int) =~= self@.links);
        }
        out
    }

    /// All account associations, in the order of their rows.
    pub fn all_associations(&self) -> (r: Vec<AccountAssociation>)
        ensures
            rows_of(r@) == self@.associations,
    {
        let mut out: Vec<AccountAssociation> = Vec::new();
        let mut i: usize = 0;
        while i < self.associations.len()
            invariant
                i <= self.associations@.len(),
                rows_of(out@) == self@.associations.subrange(0, i as int),
            decreases self.associations@.len() - i,
        {
            let ghost before = rows_of(out@);
            let a = self.associations[i].clone();
            let ghost row = a@;
            out.push(a);
            proof {
                assert(rows_of(out@) =~= before.push(row));
                assert(rows_of(out@) =~= self@.associations.subrange(0, i + 1));
            }
            i += 1;
        }
        proof {
            assert(self@.associations.subrange(0, self.associations@.len() as int)
                =~= self@.associations);
        }
        out
    }

    /// All list items, in the order of their rows.
    pub fn all_list_items(&self) -> (r: Vec<ListItem>)
        ensures
            rows_of(r@) == self@.listitems,
    {
        let mut out: Vec<ListItem> = Vec::new();
        let mut i: usize = 0;
        while i < self.listitems.len()
            invariant
                i <= self.listitems@.len(),
                rows_of(out@) == self@.listitems.subrange(0, i as int),
            decreases self.listitems@.len() - i,
        {
            let ghost before = rows_of(out@);
            let item = self.listitems[i].clone();
            let ghost row = item@;
            out.push(item);
            proof {
                assert(rows_of(out@) =~= before.push(row));
                assert(rows_of(out@) =~= self@.listitems.subrange(0, i + 1));
            }
            i += 1;
        }
        proof {
            assert(self@.listitems.subrange(0, self.listitems@.len() as int) =~= self@.listitems);
        }
        out
    }

    /// All accounts, in the order of their rows.
    pub fn all_accounts(&self) -> (r: Vec<Account>)
        ensures
            rows_of(r@) == self@.accounts,
    {
        let mut out: Vec<Account> = Vec::new();
        let mut i: usize = 0;
        while i < self.accounts.len()
            invariant
                i <= self.accounts@.len(),
                rows_of(out@) == self@.accounts.subrange(0, i as int),
            decreases self.accounts@.len() - i,
        {
            let ghost before = rows_of(out@);
            let a = self.accounts[i].clone();
            let ghost row = a@;
            out.push(a);
            proof {
                assert(rows_of(out@) =~= before.push(row));
                assert(rows_of(out@) =~= self@.accounts.subrange(0, i + 1));
            }
            i += 1;
        }
        proof {
            assert(self@.accounts.subrange(0, self.accounts@.len() as int) =~= self@.accounts);
        }
        out
    }

    fn account_position(&self, id: i32) -> (r: Option<usize>)
        requires
            self.wf(),
        ensures
            match r {
                Some(i) => has_account(self@.accounts, id) && account_index(self@.accounts, id)
                    == i,
                None => !has_account(self@.accounts, id),
            },
    {
        let mut i: usize = 0;
        while i < self.accounts.len()
            invariant
                self.wf(),
                i <= self.accounts@.len(),
                forall|k: int| 0 <= k < i ==> (#[trigger] self@.accounts[k]).id != id,
            decreases self.accounts@.len() - i,
        {
            if self.accounts[i].id == id {
                proof {
                    let rows = self@.accounts;
                    assert(rows[i as int].id == id);
                    let c = account_index(rows, id);
                    if c != i {
                        if c < i {
                            assert(account_key()(rows[c]) != account_key()(rows[i as int]));
                        } else {
                            assert(account_key()(rows[i as int]) != account_key()(rows[c]));
                        }
                    }
                }
                return Some(i);
            }
            i += 1;
        }
        None
    }

    /// The accounts through which the document `doc_id` is visible.
    pub fn accounts_of_document(&self, doc_id: &str) -> (r: Vec<Account>)
        requires
            self.wf(),
        ensures
            rows_of(r@) == accounts_of(self@.associations, self@.accounts, doc_id@),
    {
        let wanted: String = doc_id.to_owned();
        let mut out: Vec<Account> = Vec::new();
        let mut i: usize = 0;
        proof {
            assert(self@.associations.subrange(0, 0) =~= Seq::<AssociationData>::empty());
            assert(rows_of(out@) =~= Seq::<AccountRowData>::empty());
        }
        while i < self.associations.len()
            invariant
                self.wf(),
                i <= self.associations@.len(),
                wanted@ == doc_id@,
                rows_of(out@) == accounts_of(
                    self@.associations.subrange(0, i as int),
                    self@.accounts,
                    doc_id@,
                ),
            decreases self.associations@.len() - i,
        {
            proof {
                let upto = self@.associations.subrange(0, i + 1);
                assert(upto.drop_last() =~= self@.associations.subrange(0, i as int));
                assert(upto.last() == self@.associations[i as int]);
            }
            if self.associations[i].doc_id == wanted {
                match self.account_position(self.associations[i].account_id) {
                    Some(k) => {
                        let ghost before = rows_of(out@);
                        let a = self.accounts[k].clone();
                        let ghost row = a@;
                        out.push(a);
                        proof {
                            assert(rows_of(out@) =~= before.push(row));
                        }
                    },
                    None => {},
                }
            }
            i += 1;
        }
        proof {
            assert(self@.associations.subrange(0, self.associations@.len() as int)
                =~= self@.associations);
        }
        out
    }

    /// The documents of a listing, in the order of its items.
    pub fn listing_documents(&self, listing_id: i32) -> (r: Vec<Doc>)
        ensures
            rows_of(r@) == listed_docs(self@.listitems, self@.docs, listing_id),
    {
        let mut out: Vec<Doc> = Vec::new();
        let mut i: usize = 0;
        proof {
            assert(self@.listitems.subrange(0, 0) =~= Seq::<ListItemData>::empty());
            assert(rows_of(out@) =~= Seq::<DocData>::empty());
        }
        while i < self.listitems.len()
            invariant
                i <= self.listitems@.len(),
                rows_of(out@) == listed_docs(
                    self@.listitems.subrange(0, i as int),
                    self@.docs,
                    listing_id,
                ),
            decreases self.listitems@.len() - i,
        {
            proof {
                let upto = self@.listitems.subrange(0, i + 1);
                assert(upto.drop_last() =~= self@.listitems.subrange(0, i as int));
                assert(upto.last() == self@.listitems[i as int]);
            }
            if self.listitems[i].listing_id == listing_id {
                match self.doc_position(&self.listitems[i].doc_id) {
                    Some(k) => {
                        proof {
                            lemma_first_doc(
                                self@.docs,
                                self@.listitems[i as int].doc_id,
                                k as int,
                            );
                        }
                        let ghost before = rows_of(out@);
                        let d = self.docs[k].clone();
                        let ghost row = d@;
                        out.push(d);
                        proof {
                            assert(rows_of(out@) =~= before.push(row));
                        }
                    },
                    None => {},
                }
            }
            i += 1;
        }
        proof {
            assert(self@.listitems.subrange(0, self.listitems@.len() as int) =~= self@.listitems);
        }
        out
    }

    /// The item of a listing at a position.
    pub fn find_list_item(&self, listing_id: i32, position: i32) -> (r: Option<ListItem>)
        requires
            self.wf(),
        ensures
            match r {
                Some(item) => has_item(self@.listitems, listing_id, position) && item@
                    == self@.listitems[item_index(self@.listitems, listing_id, position)],
                None => !has_item(self@.listitems, listing_id, position),
            },
    {
        let mut i: usize = 0;
        while i < self.listitems.len()
            invariant
                self.wf(),
                i <= self.listitems@.len(),
                forall|k: int|
                    0 <= k < i ==> !((#[trigger] self@.listitems[k]).listing_id == listing_id
                        && self@.listitems[k].position == position),
            decreases self.listitems@.len() - i,
        {
            if self.listitems[i].listing_id == listing_id && self.listitems[i].position
                == position {
                proof {
                    let rows = self@.listitems;
                    assert(rows[i as int].listing_id == listing_id);
                    let c = item_index(rows, listing_id, position);
                    if c != i {
                        if c < i {
                            assert(item_key()(rows[c]) != item_key()(rows[i as int]));
                        } else {
                            assert(item_key()(rows[i as int]) != item_key()(rows[c]));
                        }
                    }
                }
                return Some(self.listitems[i].clone());
            }
            i += 1;
        }
        None
    }

    /// Stores an account unless an account with the same id is there
    /// already; says whether the account was stored.
    pub fn add_account(&mut self, id: i32, email: &str) -> (added: bool)
        requires
            old(self).wf(),
        ensures
            final(self).wf(),
            added == !has_account(old(self)@.accounts, id),
            added ==> final(self)@ == (StoreData {
                accounts: old(self)@.accounts.push(AccountRowData { id, email: email@ }),
                ..old(self)@
            }),
            !added ==> final(self)@ == old(self)@,
    {
        match self.account_position(id) {
            Some(_) => false,
            None => {
                let row = Account { id, email: email.to_owned() };
                let ghost before = self@.accounts;
                let ghost data = row@;
                self.accounts.push(row);
                proof {
                    assert(self@.accounts =~= before.push(data));
                    assert forall|a: int, c: int|
                        0 <= a < c < self@.accounts.len() implies account_key()(
                        #[trigger] self@.accounts[a],
                    ) != account_key()(#[trigger] self@.accounts[c]) by {
                        if c < before.len() {
                            assert(account_key()(before[a]) != account_key()(before[c]));
                        } else {
                            assert(before[a].id != id);
                        }
                    }
                }
                true
            },
        }
    }

    /// The account with the given email address, if there is one; the first
    /// such row where there are several.
    pub fn find_account_by_email(&self, email: &str) -> (r: Option<Account>)
        ensures
            match r {
                Some(a) => a@.email == email@ && exists|i: int|
                    0 <= i < self@.accounts.len() && #[trigger] self@.accounts[i] == a@ && forall|
                        k: int,
                    |
                        0 <= k < i ==> (#[trigger] self@.accounts[k]).email != email@,
                None => forall|i: int|
                    0 <= i < self@.accounts.len() ==> (#[trigger] self@.accounts[i]).email
                        != email@,
            },
    {
        let wanted: String = email.to_owned();
        let mut i: usize = 0;
        while i < self.accounts.len()
            invariant
                i <= self.accounts@.len(),
                wanted@ == email@,
                forall|k: int| 0 <= k < i ==> (#[trigger] self@.accounts[k]).email != email@,
            decreases self.accounts@.len() - i,
        {
            if self.accounts[i].email == wanted {
                let found = self.accounts[i].clone();
                proof {
                    assert(self@.accounts[i as int] == found@);
                }
                return Some(found);
            }
            i += 1;
        }
        None
    }
}

/// The largest id among the accounts, and at least 0.
pub open spec fn max_account_id(rows: Seq<AccountRowData>) -> int
    decreases rows.len(),
{
    if rows.len() == 0 {
        0
    } else {
        let before = max_account_id(rows.drop_last());
        if rows.last().id > before {
            rows.last().id as int
        } else {
            before
        }
    }
}

/// Whether some account row has the email address.
pub open spec fn has_email(rows: Seq<AccountRowData>, email: Seq<char>) -> bool {
    exists|i: int| 0 <= i < rows.len() && (#[trigger] rows[i]).email == email
}

/// No account has an id above the largest.
pub proof fn lemma_max_account_id(rows: Seq<AccountRowData>)
    ensures
        max_account_id(rows) >= 0,
        forall|i: int| 0 <= i < rows.len() ==> (#[trigger] rows[i]).id <= max_account_id(rows),
    decreases rows.len(),
{
    if rows.len() > 0 {
        let init = rows.drop_last();
        lemma_max_account_id(init);
        assert forall|i: int| 0 <= i < rows.len() implies (#[trigger] rows[i]).id
            <= max_account_id(rows) by {
            if i < init.len() {
                assert(init[i] == rows[i]);
            }
        }
    }
}

impl MirrorStore {
    /// The id under which the account with the email address is kept. An
    /// account that is not in the mirror is stored under the id that
    /// follows the largest id in use, the first account under 1. `None` if
    /// the ids are used up; nothing is stored then.
    pub fn register_account(&mut self, email: &str) -> (r: Option<i32>)
        requires
            old(self).wf(),
        ensures
            final(self).wf(),
            has_email(old(self)@.accounts, email@) ==> final(self)@ == old(self)@ && r is Some
                && old(self)@.accounts.contains(AccountRowData { id: r->0, email: email@ }),
            !has_email(old(self)@.accounts, email@) && max_account_id(old(self)@.accounts)
                < i32::MAX ==> r == Some((max_account_id(old(self)@.accounts) + 1) as i32)
                && final(self)@ == (StoreData {
                accounts: old(self)@.accounts.push(
                    AccountRowData {
                        id: (max_account_id(old(self)@.accounts) + 1) as i32,
                        email: email@,
                    },
                ),
                ..old(self)@
            }),
            !has_email(old(self)@.accounts, email@) && max_account_id(old(self)@.accounts)
                >= i32::MAX ==> r is None && final(self)@ == old(self)@,
    {
        match self.find_account_by_email(email) {
            Some(account) => {
                proof {
                    let i = choose|i: int|
                        0 <= i < self@.accounts.len() && #[trigger] self@.accounts[i] == account@;
                    assert(self@.accounts[i].email == email@);
                    assert(self@.accounts.contains(account@));
                }
                return Some(account.id);
            },
            None => {},
        }
        let mut largest: i32 = 0;
        let mut i: usize = 0;
        proof {
            assert(self@.accounts.subrange(0, 0).len() == 0);
        }
        while i < self.accounts.len()
            invariant
                i <= self.accounts@.len(),
                largest == max_account_id(self@.accounts.subrange(0, i as int)),
            decreases self.accounts@.len() - i,
        {
            proof {
                let upto = self@.accounts.subrange(0, i + 1);
                assert(upto.drop_last() =~= self@.accounts.subrange(0, i as int));
                assert(upto.last() == self@.accounts[i as int]);
            }
            if self.accounts[i].id > largest {
                largest = self.accounts[i].id;
            }
            i += 1;
        }
        proof {
            assert(self@.accounts.subrange(0, self.accounts@.len() as int) =~= self@.accounts);
            lemma_max_account_id(self@.accounts);
        }
        if largest == i32::MAX {
            return None;
        }
        let id: i32 = largest + 1;
        proof {
            if has_account(self@.accounts, id) {
                let k = choose|k: int|
                    0 <= k < self@.accounts.len() && (#[trigger] self@.accounts[k]).id == id;
                assert(self@.accounts[k].id <= largest);
            }
        }
        self.add_account(id, email);
        Some(id)
    }
}

} // verus!
