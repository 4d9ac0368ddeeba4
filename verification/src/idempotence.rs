//! A full import can be repeated: as long as the remote store has not
//! changed, the second import leaves every table as the first left it.

use vstd::prelude::*;
use crate::app::import_outcome;
use crate::records::{
    record_instant, record_row, AssociationData, DocData, DocumentRecord, LinkData,
};
use crate::rows::distinct_by;
use crate::store::{
    doc_index, doc_key, find_doc, has_doc, lemma_first_exists,
    lemma_upsert_doc_distinct, store_wf, upsert_doc, upsert_row, StoreData,
};
use crate::sync::{
    add_links, lemma_add_links, listing_outcome, record_parents, with_document, with_listed,
};

verus! {

/// Whether a record can become a row.
pub open spec fn record_ok(rec: DocumentRecord) -> bool {
    record_row(rec, record_instant(rec)) is Ok
}

/// The row that a record becomes.
pub open spec fn row_of_record(rec: DocumentRecord) -> DocData {
    record_row(rec, record_instant(rec))->Ok_0
}

/// The mirror after the records of a listing have been stored, where each
/// of them can become a row.
pub open spec fn stored(s: StoreData, account_id: i32, files: Seq<DocumentRecord>) -> StoreData
    decreases files.len(),
{
    if files.len() == 0 {
        s
    } else {
        with_listed(
            stored(s, account_id, files.drop_last()),
            account_id,
            files.last(),
            row_of_record(files.last()),
        )
    }
}

/// The row of the last record with the id, if there is one.
pub open spec fn last_row(files: Seq<DocumentRecord>, id: Seq<char>) -> Option<DocData>
    decreases files.len(),
{
    if files.len() == 0 {
        None
    } else if row_of_record(files.last()).id == id {
        Some(row_of_record(files.last()))
    } else {
        last_row(files.drop_last(), id)
    }
}

/// The ids of the rows of a document table, in order.
pub open spec fn id_column(rows: Seq<DocData>) -> Seq<Seq<char>> {
    Seq::new(rows.len(), |i: int| rows[i].id)
}

/// The mirror holds, for each record, a document with its id, its
/// association with the account, and a link from each of its parents.
pub open spec fn holds_all(t: StoreData, account_id: i32, files: Seq<DocumentRecord>) -> bool {
    forall|j: int|
        0 <= j < files.len() ==> {
            let row = row_of_record(#[trigger] files[j]);
            &&& has_doc(t.docs, row.id)
            &&& t.associations.contains(AssociationData { doc_id: row.id, account_id })
            &&& forall|p: Seq<char>| #[trigger]
                record_parents(files[j]).contains(p) ==> t.links.contains(
                    LinkData { account_id, parent_id: p, child_id: row.id },
                )
        }
}

/// A listing fails exactly if one of its records cannot become a row, and
/// otherwise each record is stored in turn.
pub proof fn lemma_listing_stored(s: StoreData, account_id: i32, files: Seq<DocumentRecord>)
    ensures
        listing_outcome(s, account_id, files).1 is None <==> forall|j: int|
            0 <= j < files.len() ==> record_ok(#[trigger] files[j]),
        listing_outcome(s, account_id, files).1 is None ==> listing_outcome(s, account_id, files).0
            == stored(s, account_id, files),
    decreases files.len(),
{
    if files.len() > 0 {
        let init = files.drop_last();
        lemma_listing_stored(s, account_id, init);
        if listing_outcome(s, account_id, files).1 is None {
            assert forall|j: int| 0 <= j < files.len() implies record_ok(#[trigger] files[j]) by {
                if j < init.len() {
                    assert(init[j] == files[j]);
                }
            }
        }
        if forall|j: int| 0 <= j < files.len() ==> record_ok(#[trigger] files[j]) {
            assert forall|j: int| 0 <= j < init.len() implies record_ok(#[trigger] init[j]) by {
                assert(init[j] == files[j]);
            }
            assert(record_ok(files[files.len() - 1]));
        }
    }
}

/// In a table with distinct ids, looking up the id of a row finds the row.
pub proof fn lemma_lookup_row(rows: Seq<DocData>, i: int)
    requires
        distinct_by(rows, doc_key()),
        0 <= i < rows.len(),
    ensures
        find_doc(rows, rows[i].id) == Some(rows[i]),
{
    lemma_first_exists(rows, rows[i].id, i);
    let p = doc_index(rows, rows[i].id);
    if p < i {
        assert(doc_key()(rows[p]) != doc_key()(rows[i]));
    }
}

/// What a lookup finds after a document has been stored.
pub proof fn lemma_lookup_after_upsert(rows: Seq<DocData>, d: DocData, id: Seq<char>)
    requires
        distinct_by(rows, doc_key()),
    ensures
        find_doc(upsert_doc(rows, d), id) == if id == d.id {
            Some(d)
        } else {
            find_doc(rows, id)
        },
        has_doc(rows, d.id) ==> id_column(upsert_doc(rows, d)) == id_column(rows),
        has_doc(upsert_doc(rows, d), d.id),
{
    let out = upsert_doc(rows, d);
    lemma_upsert_doc_distinct(rows, d);
    let place: int = if has_doc(rows, d.id) {
        let w = choose|i: int| 0 <= i < rows.len() && (#[trigger] rows[i]).id == d.id;
        lemma_first_exists(rows, d.id, w);
        doc_index(rows, d.id)
    } else {
        rows.len() as int
    };
    assert(out[place] == d);
    assert(out.len() > place >= 0);
    if has_doc(rows, d.id) {
        assert(id_column(out) =~= id_column(rows));
    }
    lemma_lookup_row(out, place);
    if id != d.id {
        if has_doc(rows, id) {
            let q = choose|i: int| 0 <= i < rows.len() && (#[trigger] rows[i]).id == id;
            assert(out[q] == rows[q]);
            lemma_lookup_row(rows, q);
            lemma_lookup_row(out, q);
        } else if has_doc(out, id) {
            let q = choose|i: int| 0 <= i < out.len() && (#[trigger] out[i]).id == id;
            assert(q != place);
            assert(out[q] == rows[q]);
        }
    }
}

/// Two tables with distinct ids that have the same ids in the same places
/// and give the same document for every id are the same table.
pub proof fn lemma_same_table(a: Seq<DocData>, b: Seq<DocData>)
    requires
        distinct_by(a, doc_key()),
        distinct_by(b, doc_key()),
        id_column(a) == id_column(b),
        forall|i: int| 0 <= i < a.len() ==> find_doc(a, (#[trigger] a[i]).id) == find_doc(b, a[i].id),
    ensures
        a == b,
{
    assert(a.len() == id_column(a).len());
    assert(b.len() == id_column(b).len());
    assert forall|i: int| 0 <= i < a.len() implies a[i] == b[i] by {
        assert(id_column(a)[i] == id_column(b)[i]);
        lemma_lookup_row(a, i);
        lemma_lookup_row(b, i);
    }
    assert(a =~= b);
}

/// After the records have been stored, the mirror holds all of them, its
/// keys are distinct, and the document with an id is the row of the last
/// record with that id or, where no record has the id, the document that
/// was there.
pub proof fn lemma_stored_holds(s: StoreData, account_id: i32, files: Seq<DocumentRecord>)
    requires
        store_wf(s),
    ensures
        distinct_by(stored(s, account_id, files).docs, doc_key()),
        holds_all(stored(s, account_id, files), account_id, files),
        forall|id: Seq<char>| #[trigger]
            find_doc(stored(s, account_id, files).docs, id) == match last_row(files, id) {
                Some(row) => Some(row),
                None => find_doc(s.docs, id),
            },
        forall|a: AssociationData|
            s.associations.contains(a) ==> #[trigger] stored(
                s,
                account_id,
                files,
            ).associations.contains(a),
        forall|l: LinkData|
            s.links.contains(l) ==> #[trigger] stored(s, account_id, files).links.contains(l),
        forall|id: Seq<char>|
            has_doc(s.docs, id) ==> #[trigger] has_doc(stored(s, account_id, files).docs, id),
    decreases files.len(),
{
    if files.len() > 0 {
        let init = files.drop_last();
        let rec = files.last();
        let row = row_of_record(rec);
        let u = stored(s, account_id, init);
        let t = stored(s, account_id, files);
        lemma_stored_holds(s, account_id, init);
        lemma_upsert_doc_distinct(u.docs, row);
        let assoc = AssociationData { doc_id: row.id, account_id };
        lemma_add_links(u.links, account_id, record_parents(rec), row.id);
        assert forall|id: Seq<char>| #[trigger]
            find_doc(t.docs, id) == match last_row(files, id) {
                Some(r) => Some(r),
                None => find_doc(s.docs, id),
            } by {
            lemma_lookup_after_upsert(u.docs, row, id);
        }
        assert forall|id: Seq<char>| has_doc(u.docs, id) implies #[trigger] has_doc(
            t.docs,
            id,
        ) by {
            lemma_lookup_after_upsert(u.docs, row, id);
        }
        lemma_lookup_after_upsert(u.docs, row, row.id);
        assert forall|a: AssociationData| u.associations.contains(a) implies #[trigger]
            t.associations.contains(a) by {
            lemma_upsert_keeps(u.associations, assoc, a);
        }
        lemma_upsert_has(u.associations, assoc);
        assert forall|j: int| 0 <= j < files.len() implies {
            let r = row_of_record(#[trigger] files[j]);
            &&& has_doc(t.docs, r.id)
            &&& t.associations.contains(AssociationData { doc_id: r.id, account_id })
            &&& forall|p: Seq<char>| #[trigger]
                record_parents(files[j]).contains(p) ==> t.links.contains(
                    LinkData { account_id, parent_id: p, child_id: r.id },
                )
        } by {
            if j < init.len() {
                assert(init[j] == files[j]);
                let r = row_of_record(init[j]);
                assert(has_doc(u.docs, r.id));
                assert(u.associations.contains(AssociationData { doc_id: r.id, account_id }));
            }
        }
    }
}

/// A row that was in a table is in it after another row has been stored.
pub proof fn lemma_upsert_keeps<A>(rows: Seq<A>, r: A, x: A)
    requires
        rows.contains(x),
    ensures
        upsert_row(rows, r).contains(x),
{
    let i = choose|i: int| 0 <= i < rows.len() && rows[i] == x;
    assert(upsert_row(rows, r)[i] == x);
}

/// A row is in a table after it has been stored.
pub proof fn lemma_upsert_has<A>(rows: Seq<A>, r: A)
    ensures
        upsert_row(rows, r).contains(r),
{
    if !rows.contains(r) {
        assert(upsert_row(rows, r)[rows.len() as int] == r);
    }
}

/// Storing links that are all there changes nothing.
pub proof fn lemma_add_links_absorbed(
    links: Seq<LinkData>,
    account_id: i32,
    parents: Seq<Seq<char>>,
    child: Seq<char>,
)
    requires
        forall|p: Seq<char>| #[trigger]
            parents.contains(p) ==> links.contains(
                LinkData { account_id, parent_id: p, child_id: child },
            ),
    ensures
        add_links(links, account_id, parents, child) == links,
    decreases parents.len(),
{
    if parents.len() > 0 {
        let init = parents.drop_last();
        assert forall|p: Seq<char>| #[trigger] init.contains(p) implies links.contains(
            LinkData { account_id, parent_id: p, child_id: child },
        ) by {
            let k = choose|k: int| 0 <= k < init.len() && init[k] == p;
            assert(parents[k] == p);
            assert(parents.contains(p));
        }
        lemma_add_links_absorbed(links, account_id, init, child);
        assert(parents[parents.len() - 1] == parents.last());
        assert(parents.contains(parents.last()));
    }
}

/// Storing records in a mirror that holds all of them already changes no
/// association and no link, adds no document, and leaves as the document
/// with an id the row of the last record with that id.
pub proof fn lemma_stored_again(t: StoreData, account_id: i32, files: Seq<DocumentRecord>)
    requires
        store_wf(t),
        holds_all(t, account_id, files),
    ensures
        ({
            let u = stored(t, account_id, files);
            &&& u.associations == t.associations
            &&& u.links == t.links
            &&& u.listitems == t.listitems
            &&& u.accounts == t.accounts
            &&& distinct_by(u.docs, doc_key())
            &&& id_column(u.docs) == id_column(t.docs)
            &&& forall|id: Seq<char>| #[trigger]
                find_doc(u.docs, id) == match last_row(files, id) {
                    Some(row) => Some(row),
                    None => find_doc(t.docs, id),
                }
        }),
    decreases files.len(),
{
    if files.len() > 0 {
        let init = files.drop_last();
        let rec = files.last();
        let row = row_of_record(rec);
        assert forall|j: int| 0 <= j < init.len() implies {
            let r = row_of_record(#[trigger] init[j]);
            &&& has_doc(t.docs, r.id)
            &&& t.associations.contains(AssociationData { doc_id: r.id, account_id })
            &&& forall|p: Seq<char>| #[trigger]
                record_parents(init[j]).contains(p) ==> t.links.contains(
                    LinkData { account_id, parent_id: p, child_id: r.id },
                )
        } by {
            assert(init[j] == files[j]);
        }
        lemma_stored_again(t, account_id, init);
        let v = stored(t, account_id, init);
        let u = stored(t, account_id, files);
        assert(files[files.len() - 1] == rec);
        assert(has_doc(t.docs, row.id));
        assert(t.associations.contains(AssociationData { doc_id: row.id, account_id }));
        lemma_add_links_absorbed(v.links, account_id, record_parents(rec), row.id);
        lemma_upsert_doc_distinct(v.docs, row);
        assert(has_doc(v.docs, row.id)) by {
            let w = choose|i: int| 0 <= i < t.docs.len() && (#[trigger] t.docs[i]).id == row.id;
            assert(id_column(v.docs).len() == v.docs.len());
            assert(id_column(t.docs).len() == t.docs.len());
            assert(id_column(t.docs)[w] == row.id);
            assert(id_column(v.docs)[w] == v.docs[w].id);
            assert(v.docs[w].id == row.id);
        }
        assert forall|id: Seq<char>| #[trigger]
            find_doc(u.docs, id) == match last_row(files, id) {
                Some(r) => Some(r),
                None => find_doc(t.docs, id),
            } by {
            lemma_lookup_after_upsert(v.docs, row, id);
        }
        lemma_lookup_after_upsert(v.docs, row, row.id);
    }
}

/// Storing the records of a listing a second time changes nothing.
pub proof fn lemma_stored_twice(s: StoreData, account_id: i32, files: Seq<DocumentRecord>)
    requires
        store_wf(s),
    ensures
        stored(stored(s, account_id, files), account_id, files) == stored(s, account_id, files),
        store_wf(stored(s, account_id, files)),
{
    let t = stored(s, account_id, files);
    lemma_stored_wf(s, account_id, files);
    lemma_stored_holds(s, account_id, files);
    lemma_stored_again(t, account_id, files);
    let u = stored(t, account_id, files);
    assert forall|i: int| 0 <= i < u.docs.len() implies find_doc(u.docs, (#[trigger] u.docs[i]).id)
        == find_doc(t.docs, u.docs[i].id) by {
        let id = u.docs[i].id;
        assert(find_doc(u.docs, id) == match last_row(files, id) {
            Some(row) => Some(row),
            None => find_doc(t.docs, id),
        });
        assert(find_doc(t.docs, id) == match last_row(files, id) {
            Some(row) => Some(row),
            None => find_doc(s.docs, id),
        });
    }
    lemma_same_table(u.docs, t.docs);
}

/// Storing records keeps the keys of every table distinct.
pub proof fn lemma_stored_wf(s: StoreData, account_id: i32, files: Seq<DocumentRecord>)
    requires
        store_wf(s),
    ensures
        store_wf(stored(s, account_id, files)),
    decreases files.len(),
{
    if files.len() > 0 {
        let init = files.drop_last();
        let rec = files.last();
        let row = row_of_record(rec);
        lemma_stored_wf(s, account_id, init);
        let u = stored(s, account_id, init);
        lemma_upsert_doc_distinct(u.docs, row);
        crate::store::lemma_upsert_row_distinct(
            u.associations,
            AssociationData { doc_id: row.id, account_id },
            crate::store::association_key(),
        );
        lemma_add_links_distinct(u.links, account_id, record_parents(rec), row.id);
    }
}

/// Storing links keeps the links distinct.
pub proof fn lemma_add_links_distinct(
    links: Seq<LinkData>,
    account_id: i32,
    parents: Seq<Seq<char>>,
    child: Seq<char>,
)
    requires
        distinct_by(links, crate::store::link_key()),
    ensures
        distinct_by(add_links(links, account_id, parents, child), crate::store::link_key()),
    decreases parents.len(),
{
    if parents.len() > 0 {
        lemma_add_links_distinct(links, account_id, parents.drop_last(), child);
        crate::store::lemma_upsert_row_distinct(
            add_links(links, account_id, parents.drop_last(), child),
            LinkData { account_id, parent_id: parents.last(), child_id: child },
            crate::store::link_key(),
        );
    }
}

proof fn lemma_stored_one(s: StoreData, account_id: i32, root: DocumentRecord)
    ensures
        stored(s, account_id, seq![root]) == with_listed(
            s,
            account_id,
            root,
            row_of_record(root),
        ),
{
    let one = seq![root];
    assert(one.len() == 1);
    assert(one.drop_last().len() == 0);
    assert(one.last() == root);
    assert(stored(s, account_id, one.drop_last()) == s);
}

/// A listing that starts with `root` does what storing `root` and then the
/// rest does.
proof fn lemma_stored_front(
    s: StoreData,
    account_id: i32,
    root: DocumentRecord,
    files: Seq<DocumentRecord>,
)
    ensures
        stored(s, account_id, seq![root] + files) == stored(
            stored(s, account_id, seq![root]),
            account_id,
            files,
        ),
    decreases files.len(),
{
    let all = seq![root] + files;
    if files.len() == 0 {
        assert(all =~= seq![root]);
    } else {
        assert(all.drop_last() =~= seq![root] + files.drop_last());
        assert(all.last() == files.last());
        lemma_stored_front(s, account_id, root, files.drop_last());
    }
}

/// Idempotence of the full import: a second import of the same root record
/// and the same listing, with nothing changed in between, leaves every
/// table of the mirror as the first import left it. In particular no
/// document, association or link is stored twice.
pub proof fn lemma_import_idempotent(
    s: StoreData,
    account_id: i32,
    root: DocumentRecord,
    files: Seq<DocumentRecord>,
)
    requires
        store_wf(s),
        import_outcome(s, account_id, root, files).1 is None,
    ensures
        import_outcome(
            import_outcome(s, account_id, root, files).0,
            account_id,
            root,
            files,
        ) == import_outcome(s, account_id, root, files),
        store_wf(import_outcome(s, account_id, root, files).0),
{
    // The root record is stored as a record without parents is.
    let bare = without_parents(root);
    let all = seq![bare] + files;
    let first = stored(s, account_id, seq![bare]);
    assert(record_ok(root));
    assert(row_of_record(bare) == row_of_record(root));
    lemma_stored_one(s, account_id, bare);
    lemma_bare_root(s, account_id, root);
    lemma_listing_stored(first, account_id, files);
    let t = import_outcome(s, account_id, root, files).0;
    assert(t == stored(first, account_id, files));
    lemma_stored_front(s, account_id, bare, files);
    assert(t == stored(s, account_id, all));
    lemma_stored_twice(s, account_id, all);
    let again = stored(t, account_id, seq![bare]);
    lemma_stored_one(t, account_id, bare);
    lemma_bare_root(t, account_id, root);
    lemma_stored_front(t, account_id, bare, files);
    lemma_listing_stored(again, account_id, files);
}

/// A record as it is without the parents that it names.
pub open spec fn without_parents(rec: DocumentRecord) -> DocumentRecord {
    DocumentRecord { parents: None, ..rec }
}

/// Storing a record that names no parents stores its document and its
/// association and nothing else.
proof fn lemma_bare_root(s: StoreData, account_id: i32, root: DocumentRecord)
    ensures
        with_listed(s, account_id, without_parents(root), row_of_record(root)) == with_document(
            s,
            account_id,
            row_of_record(root),
        ),
{
    let t = with_document(s, account_id, row_of_record(root));
    assert(record_parents(without_parents(root)).len() == 0);
    assert(add_links(t.links, account_id, record_parents(without_parents(root)), row_of_record(root).id)
        == t.links);
}

} // verus!
