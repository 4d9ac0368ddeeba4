//! The contents of a folder: the documents to which a link leads from the
//! folder, for any account through which the folder is visible.

use vstd::prelude::*;
use crate::app::Application;
use crate::graph::{graph_neighbors, graph_node_weight, lemma_out_targets_hold, out_targets};
use crate::linkage::{
    edge_ids_of, load_linkage_table, mentions, oriented, LinkageTable, MAX_TABLE_LINKS,
};
use crate::records::{Doc, DocData, LinkData};
use crate::resolve::{
    contains_text, lemma_find_doc_id, recent_first, sort_recent_first, tables_fit, ResolveError,
};
use crate::rows::{lemma_filter_members, rows_of};
use crate::store::{accounts_of, find_doc, link_of_account, StoreData};

verus! {

/// `child` is a child of `parent` for an account through which `parent` is
/// visible.
pub open spec fn is_visible_child(s: StoreData, parent: Seq<char>, child: Seq<char>) -> bool {
    exists|k: int, j: int|
        0 <= k < s.links.len() && 0 <= j < accounts_of(s.associations, s.accounts, parent).len()
            && #[trigger] s.links[k] == (LinkData {
            account_id: (#[trigger] accounts_of(s.associations, s.accounts, parent)[j]).id,
            parent_id: parent,
            child_id: child,
        })
}

/// The rows are the children of `parent`, each once, as the mirror holds
/// them, the most recently modified first.
pub open spec fn is_folder_content(s: StoreData, parent: Seq<char>, rows: Seq<DocData>) -> bool {
    &&& recent_first(rows)
    &&& rows.no_duplicates()
    &&& forall|i: int|
        0 <= i < rows.len() ==> find_doc(s.docs, (#[trigger] rows[i]).id) == Some(rows[i])
            && is_visible_child(s, parent, rows[i].id)
    &&& forall|c: Seq<char>| #[trigger]
        is_visible_child(s, parent, c) ==> exists|i: int|
            0 <= i < rows.len() && (#[trigger] rows[i]).id == c
}

/// Why the documents of a folder cannot be listed, if they cannot: a table
/// cannot hold the links of an account through which the folder is
/// visible; or else the mirror has no row for one of the documents.
pub open spec fn folder_failure(s: StoreData, parent: Seq<char>) -> Option<ResolveError> {
    if !tables_fit(s, accounts_of(s.associations, s.accounts, parent)) {
        Some(ResolveError::TooManyLinks)
    } else if !children_known(s, parent) {
        Some(ResolveError::MissingDocument)
    } else {
        None
    }
}

/// Whether every child of `parent` has a row in the mirror.
pub open spec fn children_known(s: StoreData, parent: Seq<char>) -> bool {
    forall|c: Seq<char>| #[trigger] is_visible_child(s, parent, c) ==> find_doc(s.docs, c) is Some
}

/// An edge of a table that leads from parents to children is a link of the
/// account, and each such link is an edge.
proof fn lemma_child_edges(s: StoreData, table: LinkageTable, parent: Seq<char>)
    requires
        table.wf(),
        table.edge_ids() == oriented(s.links.filter(link_of_account(table.account_id)), false),
        forall|id: Seq<char>| #[trigger]
            table.nodes@.contains_key(id) <==> mentions(
                s.links.filter(link_of_account(table.account_id)),
                id,
            ),
    ensures
        table.nodes@.contains_key(parent) ==> forall|t: usize| #[trigger]
            out_targets(table.edges(), table.nodes@[parent]).contains(t) ==> t
                < table.node_ids().len() && s.links.contains(
                LinkData {
                    account_id: table.account_id,
                    parent_id: parent,
                    child_id: table.node_ids()[t as int],
                },
            ),
        forall|c: Seq<char>|
            s.links.contains(
                LinkData { account_id: table.account_id, parent_id: parent, child_id: c },
            ) ==> table.nodes@.contains_key(parent) && exists|t: usize| #[trigger]
                out_targets(table.edges(), table.nodes@[parent]).contains(t) && t
                    < table.node_ids().len() && table.node_ids()[t as int] == c,
{
    let ids = table.node_ids();
    let edges = table.edges();
    let rows = s.links.filter(link_of_account(table.account_id));
    lemma_filter_members(s.links, link_of_account(table.account_id));
    assert(edge_ids_of(ids, edges).len() == edges.len());
    assert(oriented(rows, false).len() == rows.len());
    if table.nodes@.contains_key(parent) {
        let node = table.nodes@[parent];
        lemma_out_targets_hold(edges, node);
        assert forall|t: usize| #[trigger] out_targets(edges, node).contains(t) implies t
            < ids.len() && s.links.contains(
            LinkData { account_id: table.account_id, parent_id: parent, child_id: ids[t as int] },
        ) by {
            assert(edges.contains((node, t)));
            let k = choose|k: int| 0 <= k < edges.len() && edges[k] == (node, t);
            assert(edge_ids_of(ids, edges)[k] == (ids[node as int], ids[t as int]));
            assert(oriented(rows, false)[k] == (rows[k].parent_id, rows[k].child_id));
            assert(rows.contains(rows[k]));
            assert(link_of_account(table.account_id)(rows[k]));
            assert(rows[k] == (LinkData {
                account_id: table.account_id,
                parent_id: parent,
                child_id: ids[t as int],
            }));
        }
    }
    assert forall|c: Seq<char>|
        s.links.contains(
            LinkData { account_id: table.account_id, parent_id: parent, child_id: c },
        ) implies table.nodes@.contains_key(parent) && exists|t: usize| #[trigger]
        out_targets(edges, table.nodes@[parent]).contains(t) && t < ids.len() && ids[t as int]
            == c by {
        let link = LinkData { account_id: table.account_id, parent_id: parent, child_id: c };
        assert(link_of_account(table.account_id)(link));
        assert(rows.contains(link));
        let m = choose|m: int| 0 <= m < rows.len() && rows[m] == link;
        assert(rows[m].parent_id == parent);
        assert(mentions(rows, parent));
        let node = table.nodes@[parent];
        lemma_out_targets_hold(edges, node);
        assert(oriented(rows, false)[m] == (parent, c));
        assert(edge_ids_of(ids, edges)[m] == (ids[edges[m].0 as int], ids[edges[m].1 as int]));
        assert(table.nodes@[ids[edges[m].0 as int]] == edges[m].0);
        assert(edges[m].0 == node);
        assert(edges[m] == (node, edges[m].1));
        assert(edges.contains((node, edges[m].1)));
        assert(out_targets(edges, node).contains(edges[m].1));
    }
}

impl Application {
    /// The ids of the children of a folder, each once.
    fn child_ids(&self, folder_id: &String) -> (r: Result<Vec<String>, ResolveError>)
        requires
            self.wf(),
        ensures
            match r {
                Ok(ids) => tables_fit(
                    self.store@,
                    accounts_of(self.store@.associations, self.store@.accounts, folder_id@),
                ) && rows_of(ids@).no_duplicates() && forall|c: Seq<char>| #[trigger]
                    rows_of(ids@).contains(c) <==> is_visible_child(self.store@, folder_id@, c),
                Err(e) => e == ResolveError::TooManyLinks && !tables_fit(
                    self.store@,
                    accounts_of(self.store@.associations, self.store@.accounts, folder_id@),
                ),
            },
    {
        let ghost s = self.store@;
        let ghost accs = accounts_of(s.associations, s.accounts, folder_id@);
        let accounts = self.store.accounts_of_document(folder_id.as_str());
        let mut found: Vec<String> = Vec::new();
        let mut a: usize = 0;
        while a < accounts.len()
            invariant
                a <= accounts@.len(),
                s == self.store@,
                self.wf(),
                accs == accounts_of(s.associations, s.accounts, folder_id@),
                rows_of(accounts@) == accs,
                forall|j: int|
                    0 <= j < a ==> s.links.filter(link_of_account((#[trigger] accs[j]).id)).len()
                        <= MAX_TABLE_LINKS,
                rows_of(found@).no_duplicates(),
                forall|i: int|
                    0 <= i < found@.len() ==> is_visible_child(
                        s,
                        folder_id@,
                        #[trigger] rows_of(found@)[i],
                    ),
                forall|j: int, c: Seq<char>|
                    0 <= j < a && #[trigger] s.links.contains(
                        LinkData {
                            account_id: (#[trigger] accs[j]).id,
                            parent_id: folder_id@,
                            child_id: c,
                        },
                    ) ==> rows_of(found@).contains(c),
            decreases accounts@.len() - a,
        {
            proof {
                assert(accs.len() == accounts@.len());
                assert(accs[a as int] == accounts@[a as int]@);
            }
            let table = match load_linkage_table(&self.store, accounts[a].id, false) {
                Ok(t) => t,
                Err(_) => {
                    return Err(ResolveError::TooManyLinks);
                },
            };
            let ghost ids = table.node_ids();
            let ghost found_before = rows_of(found@);
            proof {
                lemma_child_edges(s, table, folder_id@);
                assert(accs.len() == accounts@.len());
                assert(accs[a as int] == accounts@[a as int]@);
            }
            let node: Option<usize> = match table.nodes.get(folder_id.as_str()) {
                Some(ix) => Some(*ix),
                None => None,
            };
            match node {
                Some(node) => {
                    let nbrs: Vec<usize> = graph_neighbors(&table.graph, node);
                    let mut q: usize = 0;
                    while q < nbrs.len()
                        invariant
                            q <= nbrs@.len(),
                            a < accounts@.len(),
                            s == self.store@,
                            accs == accounts_of(s.associations, s.accounts, folder_id@),
                            accs.len() == accounts@.len(),
                            accs[a as int].id == table.account_id,
                            ids == table.node_ids(),
                            table.wf(),
                            nbrs@ == out_targets(table.edges(), node),
                            forall|t: usize| #[trigger]
                                nbrs@.contains(t) ==> t < ids.len() && s.links.contains(
                                    LinkData {
                                        account_id: table.account_id,
                                        parent_id: folder_id@,
                                        child_id: ids[t as int],
                                    },
                                ),
                            rows_of(found@).no_duplicates(),
                            forall|i: int|
                                0 <= i < found@.len() ==> is_visible_child(
                                    s,
                                    folder_id@,
                                    #[trigger] rows_of(found@)[i],
                                ),
                            forall|c: Seq<char>|
                                found_before.contains(c) ==> #[trigger] rows_of(found@).contains(c),
                            forall|p: int|
                                0 <= p < q ==> rows_of(found@).contains(
                                    ids[(#[trigger] nbrs@[p]) as int],
                                ),
                        decreases nbrs@.len() - q,
                    {
                        let t: usize = nbrs[q];
                        assert(nbrs@.contains(t));
                        let id: &String = graph_node_weight(&table.graph, t).unwrap();
                        let ghost before = rows_of(found@);
                        if !contains_text(&found, id) {
                            found.push(id.clone());
                            proof {
                                assert(rows_of(found@) =~= before.push(id@));
                                let link = LinkData {
                                    account_id: table.account_id,
                                    parent_id: folder_id@,
                                    child_id: id@,
                                };
                                let k = choose|k: int| 0 <= k < s.links.len() && s.links[k] == link;
                                assert(s.links[k] == (LinkData {
                                    account_id: accs[a as int].id,
                                    parent_id: folder_id@,
                                    child_id: id@,
                                }));
                                assert(is_visible_child(s, folder_id@, id@));
                                assert(rows_of(found@)[before.len() as int] == id@);
                                assert forall|i: int|
                                    0 <= i < found@.len() implies is_visible_child(
                                    s,
                                    folder_id@,
                                    #[trigger] rows_of(found@)[i],
                                ) by {
                                    if i < before.len() {
                                        assert(rows_of(found@)[i] == before[i]);
                                    }
                                }
                                assert forall|c: Seq<char>| before.contains(c) implies rows_of(
                                    found@,
                                ).contains(c) by {
                                    let i = choose|i: int| 0 <= i < before.len() && before[i] == c;
                                    assert(rows_of(found@)[i] == c);
                                }
                                assert forall|c: Seq<char>|
                                    found_before.contains(c) implies #[trigger] rows_of(
                                    found@,
                                ).contains(c) by {
                                    assert(before.contains(c));
                                }
                                assert forall|p: int| 0 <= p < q implies rows_of(found@).contains(
                                    ids[(#[trigger] nbrs@[p]) as int],
                                ) by {
                                    assert(before.contains(ids[nbrs@[p] as int]));
                                }
                            }
                        }
                        q += 1;
                    }
                    proof {
                        assert forall|c: Seq<char>| #[trigger]
                            s.links.contains(
                                LinkData {
                                    account_id: accs[a as int].id,
                                    parent_id: folder_id@,
                                    child_id: c,
                                },
                            ) implies rows_of(found@).contains(c) by {
                            let t = choose|t: usize| #[trigger]
                                out_targets(table.edges(), table.nodes@[folder_id@]).contains(t)
                                    && t < ids.len() && ids[t as int] == c;
                            let p = choose|p: int| 0 <= p < nbrs@.len() && nbrs@[p] == t;
                            assert(rows_of(found@).contains(ids[nbrs@[p] as int]));
                        }
                    }
                },
                None => {},
            }
            proof {
                assert forall|j: int, c: Seq<char>|
                    0 <= j < a + 1 && #[trigger] s.links.contains(
                        LinkData {
                            account_id: (#[trigger] accs[j]).id,
                            parent_id: folder_id@,
                            child_id: c,
                        },
                    ) implies rows_of(found@).contains(c) by {
                    if j < a {
                        assert(found_before.contains(c));
                    }
                }
            }
            a += 1;
        }
        proof {
            assert forall|c: Seq<char>| #[trigger]
                rows_of(found@).contains(c) <==> is_visible_child(s, folder_id@, c) by {
                if rows_of(found@).contains(c) {
                    let i = choose|i: int| 0 <= i < found@.len() && rows_of(found@)[i] == c;
                    assert(is_visible_child(s, folder_id@, rows_of(found@)[i]));
                }
                if is_visible_child(s, folder_id@, c) {
                    let (k, j) = choose|k: int, j: int|
                        0 <= k < s.links.len() && 0 <= j < accs.len() && #[trigger] s.links[k]
                            == (LinkData {
                            account_id: (#[trigger] accs[j]).id,
                            parent_id: folder_id@,
                            child_id: c,
                        });
                    assert(s.links.contains(s.links[k]));
                }
            }
        }
        Ok(found)
    }

    /// The documents that a folder holds, for any account through which the
    /// folder is visible, the most recently modified first.
    ///
    /// It is an error if a table cannot hold the links of one of these
    /// accounts, and else it is an error if the mirror has no row for one of
    /// the documents.
    pub fn folder_children(&self, folder: &Doc) -> (r: Result<Vec<Doc>, ResolveError>)
        requires
            self.wf(),
        ensures
            match r {
                Ok(docs) => is_folder_content(self.store@, folder.id@, rows_of(docs@)),
                Err(e) => e == folder_failure(self.store@, folder.id@)->0,
            },
            r is Ok <==> folder_failure(self.store@, folder.id@) is None,
    {
        let ghost s = self.store@;
        let ids: Vec<String> = match self.child_ids(&folder.id) {
            Ok(v) => v,
            Err(e) => {
                return Err(e);
            },
        };
        let mut docs: Vec<Doc> = match self.try_ids_to_docs(&ids) {
            Some(d) => d,
            None => {
                proof {
                    let i = choose|i: int|
                        0 <= i < rows_of(ids@).len() && !(#[trigger] find_doc(
                            s.docs,
                            rows_of(ids@)[i],
                        ) is Some);
                    assert(rows_of(ids@).contains(rows_of(ids@)[i]));
                }
                return Err(ResolveError::MissingDocument);
            },
        };
        let ghost unsorted = rows_of(docs@);
        proof {
            assert forall|c: Seq<char>| #[trigger] is_visible_child(s, folder.id@, c) implies find_doc(
                s.docs,
                c,
            ) is Some by {
                assert(rows_of(ids@).contains(c));
                let m = choose|m: int| 0 <= m < ids@.len() && rows_of(ids@)[m] == c;
                assert(find_doc(s.docs, rows_of(ids@)[m]) is Some);
            }
        }
        proof {
            assert forall|i: int| 0 <= i < unsorted.len() implies find_doc(
                s.docs,
                (#[trigger] unsorted[i]).id,
            ) == Some(unsorted[i]) && unsorted[i].id == rows_of(ids@)[i] by {
                let id = rows_of(ids@)[i];
                assert(find_doc(s.docs, id) is Some);
                lemma_find_doc_id(s.docs, id);
            }
            assert forall|i: int, j: int|
                0 <= i < unsorted.len() && 0 <= j < unsorted.len() && i != j implies unsorted[i]
                != unsorted[j] by {
                assert(unsorted[i].id == rows_of(ids@)[i]);
                assert(unsorted[j].id == rows_of(ids@)[j]);
            }
        }
        sort_recent_first(&mut docs);
        proof {
            let rows = rows_of(docs@);
            unsorted.lemma_multiset_has_no_duplicates();
            rows.lemma_multiset_has_no_duplicates_conv();
            assert forall|i: int| 0 <= i < rows.len() implies find_doc(
                s.docs,
                (#[trigger] rows[i]).id,
            ) == Some(rows[i]) && is_visible_child(s, folder.id@, rows[i].id) by {
                assert(rows.contains(rows[i]));
                vstd::seq_lib::to_multiset_contains(rows, rows[i]);
                vstd::seq_lib::to_multiset_contains(unsorted, rows[i]);
                let m = choose|m: int| 0 <= m < unsorted.len() && unsorted[m] == rows[i];
                assert(unsorted[m].id == rows_of(ids@)[m]);
                assert(rows_of(ids@).contains(rows_of(ids@)[m]));
            }
            assert forall|c: Seq<char>| #[trigger] is_visible_child(s, folder.id@, c) implies exists|
                i: int,
            |
                0 <= i < rows.len() && (#[trigger] rows[i]).id == c by {
                assert(rows_of(ids@).contains(c));
                let m = choose|m: int| 0 <= m < ids@.len() && rows_of(ids@)[m] == c;
                assert(unsorted[m].id == c);
                assert(unsorted.contains(unsorted[m]));
                vstd::seq_lib::to_multiset_contains(unsorted, unsorted[m]);
                vstd::seq_lib::to_multiset_contains(rows, unsorted[m]);
                let i = choose|i: int| 0 <= i < rows.len() && rows[i] == unsorted[m];
                assert(rows[i].id == c);
            }
        }
        Ok(docs)
    }
}

} // verus!
