//! The resolution of a short textual specifier into documents.
//!
//! A specifier is tried as, in this order: the id of a document; `.`, the
//! virtual current folder; `..`, the parents of the current folder; `%N`,
//! the N-th document of the listing shown last; a fragment of a name.

use vstd::prelude::*;
use crate::app::{all_known, docs_by_id, Application};
use crate::linkage::{
    edge_ids_of, ids_of, is_parent_chain, lemma_table_paths, load_linkage_table, oriented,
    path_view, paths_of_links, paths_view, LinkageTable, MAX_TABLE_LINKS,
};
use crate::pattern::{chars_of, containing, containing_chars};
use crate::records::{
    AccountRowData, Doc, DocData, LinkData, Timestamp, CLI_CWD_ID, CLI_LAST_PRINT_ID,
};
use crate::rows::{lemma_filter_members, rows_of};
use crate::store::{
    accounts_of, doc_index, find_doc, has_doc, has_item, is_first_doc, item_index,
    lemma_first_exists, link_of_account, listed_docs, name_matches, StoreData,
};

verus! {

/// Whether the character is one of `0` to `9`.
pub open spec fn is_digit(c: char) -> bool {
    0x30 <= c as u32 <= 0x39
}

/// Whether every character is a digit.
pub open spec fn all_digits(s: Seq<char>) -> bool {
    forall|i: int| 0 <= i < s.len() ==> is_digit(#[trigger] s[i])
}

/// The number that a run of digits denotes in base ten.
pub open spec fn digits_value(s: Seq<char>) -> int
    decreases s.len(),
{
    if s.len() == 0 {
        0
    } else {
        digits_value(s.drop_last()) * 10 + (s.last() as u32 - 0x30)
    }
}

/// The number that a text denotes: an optional sign, then one digit or more.
pub open spec fn signed_decimal(s: Seq<char>) -> Option<int> {
    if s.len() > 0 && (s[0] == '+' || s[0] == '-') {
        let d = s.skip(1);
        if d.len() > 0 && all_digits(d) {
            Some(
                if s[0] == '-' {
                    -digits_value(d)
                } else {
                    digits_value(d)
                },
            )
        } else {
            None
        }
    } else if s.len() > 0 && all_digits(s) {
        Some(digits_value(s))
    } else {
        None
    }
}

/// The number that a text denotes, if it fits into an `i32`.
pub open spec fn decimal_i32(s: Seq<char>) -> Option<i32> {
    match signed_decimal(s) {
        Some(v) => if i32::MIN <= v <= i32::MAX {
            Some(v as i32)
        } else {
            None
        },
        None => None,
    }
}

proof fn lemma_digits_grow(s: Seq<char>, k: int)
    requires
        all_digits(s),
        0 <= k <= s.len(),
    ensures
        0 <= digits_value(s.subrange(0, k)) <= digits_value(s),
    decreases s.len() - k,
{
    if k == 0 {
        assert(s.subrange(0, 0).len() == 0);
        lemma_digits_nonneg(s);
    } else if k < s.len() {
        lemma_digits_grow(s, k + 1);
        let upto = s.subrange(0, k + 1);
        assert(upto.drop_last() =~= s.subrange(0, k));
        assert(is_digit(s[k]));
        assert(upto.last() == s[k]);
        lemma_digits_nonneg(s.subrange(0, k));
    } else {
        assert(s.subrange(0, k) =~= s);
        lemma_digits_nonneg(s);
    }
}

proof fn lemma_digits_nonneg(s: Seq<char>)
    requires
        forall|i: int| 0 <= i < s.len() ==> is_digit(#[trigger] s[i]),
    ensures
        digits_value(s) >= 0,
    decreases s.len(),
{
    if s.len() > 0 {
        assert(is_digit(s[s.len() - 1]));
        lemma_digits_nonneg(s.drop_last());
    }
}

/// Reads a number in base ten with an optional sign.
pub fn parse_i32(text: &Vec<char>) -> (r: Option<i32>)
    ensures
        r == decimal_i32(text@),
{
    let n: usize = text.len();
    if n == 0 {
        return None;
    }
    let negative: bool = text[0] == '-';
    let start: usize = if text[0] == '+' || text[0] == '-' {
        1
    } else {
        0
    };
    let ghost d = text@.skip(start as int);
    proof {
        if start == 0 {
            assert(d =~= text@);
            assert(!is_digit('+') && !is_digit('-'));
        }
    }
    if start >= n {
        return None;
    }
    let mut acc: i64 = 0;
    let mut i: usize = start;
    proof {
        assert(d.subrange(0, 0).len() == 0);
    }
    while i < n
        invariant
            start <= i <= n,
            start <= 1,
            start < n,
            (start == 1) == (text@[0] == '+' || text@[0] == '-'),
            negative == (text@[0] == '-'),
            n == text@.len(),
            d == text@.skip(start as int),
            start == 0 ==> d == text@,
            all_digits(d.subrange(0, i - start)),
            acc == digits_value(d.subrange(0, i - start)),
            0 <= acc <= 0x8000_0000,
        decreases n - i,
    {
        let code: u32 = text[i] as u32;
        let ghost upto = d.subrange(0, i - start + 1);
        proof {
            assert(upto.drop_last() =~= d.subrange(0, i - start));
            assert(upto.last() == text@[i as int]);
            assert(d[i - start] == text@[i as int]);
        }
        if code < 0x30 || code > 0x39 {
            proof {
                assert(!is_digit(d[i - start]));
            }
            return None;
        }
        let next: i64 = acc * 10 + (code - 0x30) as i64;
        proof {
            assert forall|k: int| 0 <= k < upto.len() implies is_digit(#[trigger] upto[k]) by {
                if k < i - start {
                    assert(d.subrange(0, i - start)[k] == upto[k]);
                }
            }
        }
        if next > 0x8000_0000 {
            proof {
                if all_digits(d) {
                    lemma_digits_grow(d, i - start + 1);
                }
            }
            return None;
        }
        acc = next;
        i += 1;
    }
    proof {
        assert(d.subrange(0, n - start) =~= d);
    }
    if negative {
        Some((-acc) as i32)
    } else if acc > 0x7fff_ffff {
        None
    } else {
        Some(acc as i32)
    }
}

/// No document comes before one that was modified later.
pub open spec fn recent_first(rows: Seq<DocData>) -> bool {
    forall|i: int, j: int|
        0 <= i < j < rows.len() ==> !(#[trigger] rows[i]).modified_time.before(
            (#[trigger] rows[j]).modified_time,
        )
}

/// The place at which a document modified at `t` goes into a list that is
/// ordered the most recent first: before the first document that was not
/// modified after `t`.
pub open spec fn place_for(rows: Seq<DocData>, t: Timestamp) -> int
    decreases rows.len(),
{
    if rows.len() == 0 || !t.before(rows[0].modified_time) {
        0
    } else {
        1 + place_for(rows.drop_first(), t)
    }
}

/// The documents ordered by their modification time, the most recent
/// first. Of documents with the same time the one that came later in the
/// list comes first.
pub open spec fn recent_order(rows: Seq<DocData>) -> Seq<DocData>
    decreases rows.len(),
{
    if rows.len() == 0 {
        Seq::empty()
    } else {
        let before = recent_order(rows.drop_last());
        before.insert(place_for(before, rows.last().modified_time), rows.last())
    }
}

proof fn lemma_place(rows: Seq<DocData>, t: Timestamp, k: int)
    requires
        0 <= k <= rows.len(),
        forall|q: int| 0 <= q < k ==> t.before((#[trigger] rows[q]).modified_time),
        k == rows.len() || !t.before(rows[k].modified_time),
    ensures
        place_for(rows, t) == k,
    decreases k,
{
    if k > 0 {
        let rest = rows.drop_first();
        assert(t.before(rows[0].modified_time));
        assert forall|q: int| 0 <= q < k - 1 implies t.before(
            (#[trigger] rest[q]).modified_time,
        ) by {
            assert(rest[q] == rows[q + 1]);
        }
        if k < rows.len() {
            assert(rest[k - 1] == rows[k]);
        }
        lemma_place(rest, t, k - 1);
    }
}

proof fn lemma_place_within(rows: Seq<DocData>, t: Timestamp)
    ensures
        0 <= place_for(rows, t) <= rows.len(),
    decreases rows.len(),
{
    if rows.len() > 0 {
        lemma_place_within(rows.drop_first(), t);
    }
}

/// Ordering keeps every document.
pub proof fn lemma_recent_order_len(rows: Seq<DocData>)
    ensures
        recent_order(rows).len() == rows.len(),
    decreases rows.len(),
{
    if rows.len() > 0 {
        lemma_recent_order_len(rows.drop_last());
        lemma_place_within(recent_order(rows.drop_last()), rows.last().modified_time);
    }
}

/// Orders documents by their modification time, the most recent first. Of
/// documents with the same time the one that came later comes first.
pub fn sort_recent_first(docs: &mut Vec<Doc>)
    ensures
        rows_of(final(docs)@) == recent_order(rows_of(old(docs)@)),
        recent_first(rows_of(final(docs)@)),
        rows_of(final(docs)@).to_multiset() == rows_of(old(docs)@).to_multiset(),
        final(docs)@.len() == old(docs)@.len(),
{
    let ghost orig = rows_of(docs@);
    let n: usize = docs.len();
    let mut i: usize = 0;
    proof {
        assert(orig.subrange(0, 0).len() == 0);
        assert(rows_of(docs@) =~= recent_order(orig.subrange(0, 0)) + orig.subrange(0, n as int));
        assert(rows_of(docs@).subrange(0, 0).len() == 0);
    }
    while i < n
        invariant
            i <= n,
            n == docs@.len(),
            n == orig.len(),
            orig == rows_of(old(docs)@),
            rows_of(docs@) == recent_order(orig.subrange(0, i as int)) + orig.subrange(
                i as int,
                n as int,
            ),
            recent_first(rows_of(docs@).subrange(0, i as int)),
            rows_of(docs@).to_multiset() == rows_of(old(docs)@).to_multiset(),
        decreases n - i,
    {
        let ghost before = rows_of(docs@);
        let ghost ordered = recent_order(orig.subrange(0, i as int));
        proof {
            lemma_recent_order_len(orig.subrange(0, i as int));
        }
        let x: Doc = docs.remove(i);
        let ghost row = x@;
        let ghost rest = rows_of(docs@);
        proof {
            assert(rest =~= before.remove(i as int));
            assert(row == before[i as int]);
            assert(row == orig[i as int]);
            assert(rest =~= ordered + orig.subrange(i + 1, n as int));
        }
        let mut k: usize = 0;
        while k < i && x.modified_time.is_before(&docs[k].modified_time)
            invariant
                k <= i,
                i < n,
                docs@.len() == n - 1,
                rest == rows_of(docs@),
                row == x@,
                forall|q: int|
                    0 <= q < k ==> row.modified_time.before((#[trigger] rest[q]).modified_time),
            decreases i - k,
        {
            k += 1;
        }
        docs.insert(k, x);
        proof {
            let after = rows_of(docs@);
            assert(after =~= rest.insert(k as int, row));
            vstd::seq_lib::to_multiset_remove(before, i as int);
            vstd::seq_lib::to_multiset_insert(rest, k as int, row);
            assert(before.to_multiset().contains(row)) by {
                vstd::seq_lib::to_multiset_contains(before, row);
                assert(before.contains(row));
            }
            assert(after.to_multiset() =~= before.to_multiset());
            let sorted = after.subrange(0, i + 1);
            let prefix = before.subrange(0, i as int);
            assert(prefix =~= ordered);
            assert forall|q: int| 0 <= q < k implies row.modified_time.before(
                (#[trigger] ordered[q]).modified_time,
            ) by {
                assert(rest[q] == ordered[q]);
            }
            if k < i {
                assert(rest[k as int] == ordered[k as int]);
            }
            lemma_place(ordered, row.modified_time, k as int);
            let upto = orig.subrange(0, i + 1);
            assert(upto.drop_last() =~= orig.subrange(0, i as int));
            assert(upto.last() == row);
            assert(recent_order(upto) == ordered.insert(k as int, row));
            assert(after =~= recent_order(upto) + orig.subrange(i + 1, n as int));
            assert forall|a: int, c: int| 0 <= a < c < sorted.len() implies !(
            #[trigger] sorted[a]).modified_time.before((#[trigger] sorted[c]).modified_time) by {
                if c < k {
                    assert(sorted[a] == prefix[a] && sorted[c] == prefix[c]);
                } else if c == k {
                    assert(sorted[a] == rest[a]);
                    assert(row.modified_time.before(rest[a].modified_time));
                } else if a < k {
                    assert(sorted[a] == prefix[a] && sorted[c] == prefix[c - 1]);
                } else if a == k {
                    assert(sorted[c] == prefix[c - 1]);
                    assert(rest[k as int] == prefix[k as int]);
                    assert(!row.modified_time.before(prefix[k as int].modified_time));
                    if c - 1 > k {
                        assert(!prefix[k as int].modified_time.before(
                            prefix[c - 1].modified_time,
                        ));
                    }
                } else {
                    assert(sorted[a] == prefix[a - 1] && sorted[c] == prefix[c - 1]);
                }
            }
        }
        i += 1;
    }
    proof {
        assert(rows_of(docs@).subrange(0, n as int) =~= rows_of(docs@));
        assert(orig.subrange(0, n as int) =~= orig);
        assert(orig.subrange(n as int, n as int).len() == 0);
        assert(rows_of(docs@) =~= recent_order(orig));
    }
}

/// Why a specifier did not resolve.
#[derive(Clone, Copy, Debug, PartialEq, Eq, Structural)]
pub enum ResolveError {
    /// The virtual current folder is not defined.
    NoCwd,
    /// The listing shown last has no document at the position.
    InvalidReference,
    /// What follows `%` is not a number.
    BadReferenceNumber,
    /// No document matched the specifier.
    NoMatch,
    /// More than one document matched where one was required.
    Ambiguous,
    /// The mirror names a document of which it has no row.
    MissingDocument,
    /// An account has more links than a table can hold.
    TooManyLinks,
}

/// The most candidates that are shown when a specifier is ambiguous.
pub const MAX_TO_PRINT: usize = 20;

/// A specifier that did not resolve to one document.
#[derive(Debug, PartialEq, Eq)]
pub struct Unresolved {
    /// Why.
    pub error: ResolveError,
    /// How many documents matched; 0 unless the specifier was ambiguous.
    pub total: usize,
    /// The first matches, 20 at most; empty unless the specifier was
    /// ambiguous.
    pub candidates: Vec<Doc>,
}

/// The kinds of specifier.
pub enum SpecKind {
    /// The id of a document.
    Id,
    /// `.`: the virtual current folder.
    Cwd,
    /// `..`: the parents of the virtual current folder.
    CwdParent,
    /// `%N`: a document of the listing shown last.
    Reference,
    /// A fragment of a name.
    Fragment,
}

/// The kind that a specifier is taken for: the first in the order of
/// [`SpecKind`] that fits.
pub open spec fn spec_kind(s: StoreData, spec: Seq<char>) -> SpecKind {
    if has_doc(s.docs, spec) {
        SpecKind::Id
    } else if spec == "."@ {
        SpecKind::Cwd
    } else if spec == ".."@ {
        SpecKind::CwdParent
    } else if spec.len() > 0 && spec[0] == '%' {
        SpecKind::Reference
    } else {
        SpecKind::Fragment
    }
}

/// What the reference `%N` resolves to: the document at position N - 1 of
/// the listing shown last. The first document is `%1`; a number below 1
/// refers to nothing.
pub open spec fn resolve_reference(s: StoreData, number: Seq<char>) -> Result<
    Seq<DocData>,
    ResolveError,
> {
    match decimal_i32(number) {
        None => Err(ResolveError::BadReferenceNumber),
        Some(n) => if n < 1 || !has_item(s.listitems, CLI_LAST_PRINT_ID, (n - 1) as i32) {
            Err(ResolveError::InvalidReference)
        } else {
            let item = s.listitems[item_index(s.listitems, CLI_LAST_PRINT_ID, (n - 1) as i32)];
            match find_doc(s.docs, item.doc_id) {
                Some(d) => Ok(seq![d]),
                None => Err(ResolveError::MissingDocument),
            }
        },
    }
}

/// What a specifier of any kind but `..` resolves to.
pub open spec fn resolve_plain(s: StoreData, spec: Seq<char>) -> Result<
    Seq<DocData>,
    ResolveError,
> {
    match spec_kind(s, spec) {
        SpecKind::Id => Ok(seq![find_doc(s.docs, spec)->0]),
        SpecKind::Cwd => {
            let found = listed_docs(s.listitems, s.docs, CLI_CWD_ID);
            if found.len() == 0 {
                Err(ResolveError::NoCwd)
            } else {
                Ok(found)
            }
        },
        SpecKind::Reference => resolve_reference(s, spec.skip(1)),
        _ => Ok(s.docs.filter(name_matches(containing(spec)))),
    }
}

/// `parent` is a parent of `child` for an account through which `child` is
/// visible.
pub open spec fn is_visible_parent(s: StoreData, child: Seq<char>, parent: Seq<char>) -> bool {
    exists|k: int, j: int|
        0 <= k < s.links.len() && 0 <= j < accounts_of(s.associations, s.accounts, child).len()
            && #[trigger] s.links[k] == (LinkData {
            account_id: (#[trigger] accounts_of(s.associations, s.accounts, child)[j]).id,
            parent_id: parent,
            child_id: child,
        })
}

/// A list of ids after the last folder of each path has been added at its
/// end, path by path, unless the list has it already.
pub open spec fn with_last_hops(ids: Seq<Seq<char>>, paths: Seq<Seq<Seq<char>>>) -> Seq<
    Seq<char>,
>
    decreases paths.len(),
{
    if paths.len() == 0 {
        ids
    } else {
        let before = with_last_hops(ids, paths.drop_last());
        let path = paths.last();
        if path.len() > 0 && !before.contains(path.last()) {
            before.push(path.last())
        } else {
            before
        }
    }
}

/// The paths of a document in the folder structure of one account.
pub open spec fn account_paths(s: StoreData, account_id: i32, doc: Seq<char>) -> Seq<
    Seq<Seq<char>>,
> {
    paths_of_links(s.links.filter(link_of_account(account_id)), doc)
}

/// The parents of a document: the folder that holds it on each of its
/// paths, for the accounts in turn, each folder once.
pub open spec fn visible_parents(
    s: StoreData,
    accounts: Seq<AccountRowData>,
    doc: Seq<char>,
) -> Seq<Seq<char>>
    decreases accounts.len(),
{
    if accounts.len() == 0 {
        Seq::empty()
    } else {
        with_last_hops(
            visible_parents(s, accounts.drop_last(), doc),
            account_paths(s, accounts.last().id, doc),
        )
    }
}

/// Whether a table can hold the links of each of the accounts.
pub open spec fn tables_fit(s: StoreData, accounts: Seq<AccountRowData>) -> bool {
    forall|j: int|
        0 <= j < accounts.len() ==> s.links.filter(
            link_of_account((#[trigger] accounts[j]).id),
        ).len() <= MAX_TABLE_LINKS
}

/// The rows are distinct documents of the mirror, each a parent of `child`
/// for an account through which `child` is visible.
pub open spec fn parents_sound(s: StoreData, child: Seq<char>, rows: Seq<DocData>) -> bool {
    &&& forall|i: int|
        0 <= i < rows.len() ==> find_doc(s.docs, (#[trigger] rows[i]).id) == Some(rows[i])
            && is_visible_parent(s, child, rows[i].id)
    &&& forall|i: int, j: int|
        0 <= i < j < rows.len() ==> (#[trigger] rows[i]).id != (#[trigger] rows[j]).id
}

/// What `..` resolves to. The current folder is resolved as `.` is. Its
/// parents are listed for the accounts through which it is visible; that
/// fails if a table cannot hold the links of one of these accounts, and it
/// fails if the mirror has no row for one of the parents.
pub open spec fn resolve_parents(s: StoreData) -> Result<Seq<DocData>, ResolveError> {
    match resolve_plain(s, "."@) {
        Err(e) => Err(e),
        Ok(cwds) => {
            let doc = cwds.last().id;
            let accounts = accounts_of(s.associations, s.accounts, doc);
            let ids = visible_parents(s, accounts, doc);
            if !tables_fit(s, accounts) {
                Err(ResolveError::TooManyLinks)
            } else if !all_known(s.docs, ids) {
                Err(ResolveError::MissingDocument)
            } else {
                Ok(docs_by_id(s.docs, ids))
            }
        },
    }
}

/// What a specifier resolves to.
pub open spec fn resolution(s: StoreData, spec: Seq<char>) -> Result<Seq<DocData>, ResolveError> {
    if spec_kind(s, spec) is CwdParent {
        resolve_parents(s)
    } else {
        resolve_plain(s, spec)
    }
}

/// The documents that `..` names are distinct documents of the mirror, each
/// a parent of the current folder for an account through which the folder
/// is visible.
pub open spec fn parents_are_sound(s: StoreData) -> bool {
    match resolve_plain(s, "."@) {
        Ok(cwds) => match resolve_parents(s) {
            Ok(rows) => parents_sound(s, cwds.last().id, rows),
            Err(_) => true,
        },
        Err(_) => true,
    }
}

/// The rows of a result.
pub open spec fn result_rows(r: Result<Vec<Doc>, ResolveError>) -> Result<
    Seq<DocData>,
    ResolveError,
> {
    match r {
        Ok(v) => Ok(rows_of(v@)),
        Err(e) => Err(e),
    }
}

/// Settings for turning a specifier into documents.
pub struct GetDocBuilder<'a> {
    app: &'a Application,
    zero_ok: bool,
}

impl Application {
    /// Starts turning a specifier into documents. By default at least one
    /// document must match.
    pub fn get_docs<'a>(&'a self) -> (b: GetDocBuilder<'a>)
        ensures
            b.app() == self,
            !b.accepts_zero(),
    {
        GetDocBuilder { app: self, zero_ok: false }
    }
}

pub(crate) fn contains_text(v: &Vec<String>, x: &String) -> (b: bool)
    ensures
        b == rows_of(v@).contains(x@),
{
    let mut i: usize = 0;
    while i < v.len()
        invariant
            i <= v@.len(),
            forall|k: int| 0 <= k < i ==> #[trigger] rows_of(v@)[k] != x@,
        decreases v@.len() - i,
    {
        if v[i] == *x {
            proof {
                assert(rows_of(v@)[i as int] == x@);
            }
            return true;
        }
        i += 1;
    }
    false
}

/// The last hop of a path that the table has found is a parent link of the
/// account.
proof fn lemma_last_hop(
    s: StoreData,
    table: LinkageTable,
    start_id: Seq<char>,
    path: Seq<Seq<char>>,
)
    requires
        table.wf(),
        table.edge_ids() == oriented(s.links.filter(link_of_account(table.account_id)), true),
        table.nodes@.contains_key(start_id),
        table.is_path_of(table.nodes@[start_id], path),
        path.len() > 0,
    ensures
        s.links.contains(
            LinkData { account_id: table.account_id, parent_id: path.last(), child_id: start_id },
        ),
{
    let ids = table.node_ids();
    let edges = table.edges();
    let start = table.nodes@[start_id];
    let rows = s.links.filter(link_of_account(table.account_id));
    let chain = choose|chain: Seq<usize>|
        #[trigger] is_parent_chain(ids.len(), edges, start, chain) && path == ids_of(ids, chain);
    let walk = chain.push(start);
    let last = chain.len() - 1;
    assert(edges.contains((walk[last + 1], chain[last])));
    let k = choose|k: int| 0 <= k < edges.len() && edges[k] == (start, chain[last]);
    assert(edge_ids_of(ids, edges).len() == edges.len());
    assert(oriented(rows, true).len() == rows.len());
    assert(edge_ids_of(ids, edges)[k] == (ids[start as int], ids[chain[last] as int]));
    assert(oriented(rows, true)[k] == (rows[k].child_id, rows[k].parent_id));
    assert(path.last() == ids[chain[last] as int]);
    lemma_filter_members(s.links, link_of_account(table.account_id));
    assert(rows.contains(rows[k]));
    assert(link_of_account(table.account_id)(rows[k]));
    assert(rows[k] == (LinkData {
        account_id: table.account_id,
        parent_id: path.last(),
        child_id: start_id,
    }));
}

/// The document that `find_doc` gives for an id has that id.
pub proof fn lemma_find_doc_id(docs: Seq<DocData>, id: Seq<char>)
    requires
        has_doc(docs, id),
    ensures
        find_doc(docs, id) is Some,
        find_doc(docs, id)->0.id == id,
        is_first_doc(docs, id, doc_index(docs, id)),
{
    let w = choose|i: int| 0 <= i < docs.len() && (#[trigger] docs[i]).id == id;
    lemma_first_exists(docs, id, w);
}

impl<'a> GetDocBuilder<'a> {
    /// The application whose mirror is searched.
    pub closed spec fn app(&self) -> &Application {
        self.app
    }

    /// Whether a specifier that matches no document is accepted.
    pub closed spec fn accepts_zero(&self) -> bool {
        self.zero_ok
    }

    /// Says whether it is in order that the specifier matches no document.
    pub fn zero_ok(self, setting: bool) -> (b: Self)
        ensures
            b.app() == self.app(),
            b.accepts_zero() == setting,
    {
        GetDocBuilder { app: self.app, zero_ok: setting }
    }

    /// The ids of the parents of a document, each once: the last hop of
    /// every path that the document has for an account through which it is
    /// visible.
    fn parent_ids(&self, doc_id: &String) -> (r: Result<Vec<String>, ResolveError>)
        requires
            self.app().wf(),
        ensures
            match r {
                Ok(ids) => {
                    let s = self.app().store@;
                    let accounts = accounts_of(s.associations, s.accounts, doc_id@);
                    &&& tables_fit(s, accounts)
                    &&& rows_of(ids@) == visible_parents(s, accounts, doc_id@)
                    &&& rows_of(ids@).no_duplicates()
                    &&& forall|i: int|
                        0 <= i < ids@.len() ==> is_visible_parent(
                            s,
                            doc_id@,
                            #[trigger] rows_of(ids@)[i],
                        )
                },
                Err(e) => e == ResolveError::TooManyLinks && !tables_fit(
                    self.app().store@,
                    accounts_of(
                        self.app().store@.associations,
                        self.app().store@.accounts,
                        doc_id@,
                    ),
                ),
            },
    {
        let ghost s = self.app.store@;
        let ghost accs = accounts_of(s.associations, s.accounts, doc_id@);
        let accounts = self.app.store.accounts_of_document(doc_id.as_str());
        let mut found: Vec<String> = Vec::new();
        let mut a: usize = 0;
        proof {
            assert(accs.subrange(0, 0).len() == 0);
            assert(rows_of(found@) =~= visible_parents(s, accs.subrange(0, 0), doc_id@));
        }
        while a < accounts.len()
            invariant
                accs == accounts_of(s.associations, s.accounts, doc_id@),
                rows_of(found@) == visible_parents(s, accs.subrange(0, a as int), doc_id@),
                forall|j: int|
                    0 <= j < a ==> s.links.filter(link_of_account((#[trigger] accs[j]).id)).len()
                        <= MAX_TABLE_LINKS,
                a <= accounts@.len(),
                s == self.app.store@,
                self.app.wf(),
                rows_of(accounts@) == accounts_of(s.associations, s.accounts, doc_id@),
                rows_of(found@).no_duplicates(),
                forall|i: int|
                    0 <= i < found@.len() ==> is_visible_parent(
                        s,
                        doc_id@,
                        #[trigger] rows_of(found@)[i],
                    ),
            decreases accounts@.len() - a,
        {
            proof {
                assert(accs.len() == accounts@.len());
                assert(accs[a as int] == accounts@[a as int]@);
            }
            let table = match load_linkage_table(&self.app.store, accounts[a].id, true) {
                Ok(t) => t,
                Err(_) => {
                    return Err(ResolveError::TooManyLinks);
                },
            };
            let paths = table.find_parent_paths(doc_id.as_str());
            let ghost found_before = rows_of(found@);
            let ghost listed = paths_view(paths@);
            let mut p: usize = 0;
            proof {
                lemma_table_paths(
                    table,
                    s.links.filter(link_of_account(accs[a as int].id)),
                    doc_id@,
                );
                assert(listed.subrange(0, 0).len() == 0);
            }
            while p < paths.len()
                invariant
                    listed == paths_view(paths@),
                    rows_of(found@) == with_last_hops(found_before, listed.subrange(0, p as int)),
                    p <= paths@.len(),
                    a < accounts@.len(),
                    s == self.app.store@,
                    rows_of(accounts@) == accounts_of(s.associations, s.accounts, doc_id@),
                    table.wf(),
                    table.account_id == accounts@[a as int].id,
                    table.edge_ids() == oriented(
                        s.links.filter(link_of_account(table.account_id)),
                        true,
                    ),
                    table.nodes@.contains_key(doc_id@) ==> forall|k: int|
                        0 <= k < paths@.len() ==> table.is_path_of(
                            table.nodes@[doc_id@],
                            path_view((#[trigger] paths@[k])@),
                        ),
                    !table.nodes@.contains_key(doc_id@) ==> paths@.len() == 0,
                    rows_of(found@).no_duplicates(),
                    forall|i: int|
                        0 <= i < found@.len() ==> is_visible_parent(
                            s,
                            doc_id@,
                            #[trigger] rows_of(found@)[i],
                        ),
                decreases paths@.len() - p,
            {
                let path = &paths[p];
                proof {
                    let upto = listed.subrange(0, p + 1);
                    assert(upto.drop_last() =~= listed.subrange(0, p as int));
                    assert(upto.last() == path_view(path@));
                    if path@.len() > 0 {
                        assert(path_view(path@).last() == path@[path@.len() - 1]@);
                    }
                }
                if path.len() > 0 {
                    let last = &path[path.len() - 1];
                    if !contains_text(&found, last) {
                        let ghost before = rows_of(found@);
                        found.push(last.clone());
                        proof {
                            let view = path_view(path@);
                            assert(view.last() == last@);
                            lemma_last_hop(s, table, doc_id@, view);
                            let link = LinkData {
                                account_id: table.account_id,
                                parent_id: last@,
                                child_id: doc_id@,
                            };
                            let k = choose|k: int| 0 <= k < s.links.len() && s.links[k] == link;
                            let accs = accounts_of(s.associations, s.accounts, doc_id@);
                            assert(accs[a as int] == accounts@[a as int]@);
                            assert(s.links[k] == (LinkData {
                                account_id: accs[a as int].id,
                                parent_id: last@,
                                child_id: doc_id@,
                            }));
                            assert(is_visible_parent(s, doc_id@, last@));
                            assert(rows_of(found@) =~= before.push(last@));
                            assert forall|i: int| 0 <= i < found@.len() implies is_visible_parent(
                                s,
                                doc_id@,
                                #[trigger] rows_of(found@)[i],
                            ) by {
                                if i < before.len() {
                                    assert(rows_of(found@)[i] == before[i]);
                                }
                            }
                        }
                    }
                }
                p += 1;
            }
            proof {
                assert(listed.subrange(0, paths@.len() as int) =~= listed);
                let upto = accs.subrange(0, a + 1);
                assert(upto.drop_last() =~= accs.subrange(0, a as int));
                assert(upto.last() == accs[a as int]);
            }
            a += 1;
        }
        proof {
            assert(accs.subrange(0, accounts@.len() as int) =~= accs);
        }
        Ok(found)
    }

    /// Turns a specifier into the documents that it names, without any
    /// check on how many there are.
    fn process_impl(&self, spec: &str) -> (r: Result<Vec<Doc>, ResolveError>)
        requires
            self.app().wf(),
        ensures
            result_rows(r) == resolution(self.app().store@, spec@),
            spec_kind(self.app().store@, spec@) is CwdParent ==> parents_are_sound(
                self.app().store@,
            ),
        decreases
                (if spec@ == ".."@ {
                    1nat
                } else {
                    0nat
                }),
    {
        let ghost s = self.app.store@;
        proof {
            reveal_strlit(".");
            reveal_strlit("..");
        }
        // The id of a document?
        match self.app.store.find_document(spec) {
            Some(doc) => {
                let mut only: Vec<Doc> = Vec::new();
                let ghost row = doc@;
                only.push(doc);
                proof {
                    assert(rows_of(only@) =~= seq![row]);
                }
                return Ok(only);
            },
            None => {},
        }
        let text: String = spec.to_owned();
        // The virtual current folder?
        if text == ".".to_owned() {
            let matches = self.app.store.listing_documents(CLI_CWD_ID);
            if matches.len() < 1 {
                return Err(ResolveError::NoCwd);
            }
            return Ok(matches);
        }
        // The parents of the virtual current folder? A folder can have more
        // than one.
        if text == "..".to_owned() {
            let mut cwds = match self.process_impl(".") {
                Ok(v) => v,
                Err(e) => {
                    return Err(e);
                },
            };
            proof {
                lemma_plain_nonempty(s, "."@);
            }
            let cwd: Doc = cwds.pop().unwrap();
            let ids: Vec<String> = match self.parent_ids(&cwd.id) {
                Ok(v) => v,
                Err(e) => {
                    return Err(e);
                },
            };
            return match self.app.try_ids_to_docs(&ids) {
                Some(docs) => {
                    proof {
                        let rows = rows_of(docs@);
                        assert forall|i: int| 0 <= i < rows.len() implies find_doc(
                            s.docs,
                            (#[trigger] rows[i]).id,
                        ) == Some(rows[i]) && is_visible_parent(s, cwd@.id, rows[i].id) by {
                            let id = rows_of(ids@)[i];
                            assert(find_doc(s.docs, id) is Some);
                            lemma_find_doc_id(s.docs, id);
                            assert(is_visible_parent(s, cwd@.id, rows_of(ids@)[i]));
                        }
                        assert forall|i: int, j: int| 0 <= i < j < rows.len() implies (
                        #[trigger] rows[i]).id != (#[trigger] rows[j]).id by {
                            let a = rows_of(ids@)[i];
                            let c = rows_of(ids@)[j];
                            assert(find_doc(s.docs, a) is Some);
                            assert(find_doc(s.docs, c) is Some);
                            lemma_find_doc_id(s.docs, a);
                            lemma_find_doc_id(s.docs, c);
                        }
                    }
                    Ok(docs)
                },
                None => Err(ResolveError::MissingDocument),
            };
        }
        // A document of the listing shown last?
        let chars: Vec<char> = chars_of(spec);
        if chars.len() > 0 && chars[0] == '%' {
            let mut number: Vec<char> = Vec::new();
            let mut i: usize = 1;
            while i < chars.len()
                invariant
                    1 <= i <= chars@.len(),
                    number@ == chars@.subrange(1, i as int),
                decreases chars@.len() - i,
            {
                number.push(chars[i]);
                proof {
                    assert(number@ =~= chars@.subrange(1, i + 1));
                }
                i += 1;
            }
            proof {
                assert(number@ =~= spec@.skip(1));
            }
            let n: i32 = match parse_i32(&number) {
                Some(n) => n,
                None => {
                    return Err(ResolveError::BadReferenceNumber);
                },
            };
            if n < 1 {
                return Err(ResolveError::InvalidReference);
            }
            // The user counts from 1, the listing from 0.
            let item = match self.app.store.find_list_item(CLI_LAST_PRINT_ID, n - 1) {
                Some(item) => item,
                None => {
                    return Err(ResolveError::InvalidReference);
                },
            };
            return match self.app.store.find_document(item.doc_id.as_str()) {
                Some(doc) => {
                    let mut only: Vec<Doc> = Vec::new();
                    let ghost row = doc@;
                    only.push(doc);
                    proof {
                        assert(rows_of(only@) =~= seq![row]);
                    }
                    Ok(only)
                },
                None => Err(ResolveError::MissingDocument),
            };
        }
        // A fragment of a name.
        let pattern = containing_chars(spec);
        Ok(self.app.store.documents_like(&pattern))
    }
}

/// Whatever `.` resolves to holds a document.
proof fn lemma_plain_nonempty(s: StoreData, spec: Seq<char>)
    requires
        spec_kind(s, spec) is Id || spec_kind(s, spec) is Cwd,
    ensures
        resolve_plain(s, spec) matches Ok(rows) ==> rows.len() > 0,
{
}


/// How the documents that a specifier names are handed out: unless none is
/// accepted, at least one is required; they come ordered by modification
/// time, the most recent first, as [`recent_order`] puts them.
pub open spec fn ordered_result(
    zero_ok: bool,
    named: Result<Seq<DocData>, ResolveError>,
    out: Result<Seq<DocData>, ResolveError>,
) -> bool {
    match named {
        Err(e) => out == Err::<Seq<DocData>, ResolveError>(e),
        Ok(rows) => if !zero_ok && rows.len() == 0 {
            out == Err::<Seq<DocData>, ResolveError>(ResolveError::NoMatch)
        } else {
            out matches Ok(sorted) && sorted == recent_order(rows) && recent_first(sorted)
                && sorted.to_multiset() == rows.to_multiset()
        },
    }
}

/// The first `n` rows, or all of them if there are fewer.
pub open spec fn first_rows(rows: Seq<DocData>, n: int) -> Seq<DocData> {
    if rows.len() <= n {
        rows
    } else {
        rows.subrange(0, n)
    }
}

/// How the one document that a specifier names is handed out: exactly one
/// must match. Where several match, the first 20 are reported as
/// candidates, together with the number of matches.
pub open spec fn single_result(
    named: Result<Seq<DocData>, ResolveError>,
    out: Result<Doc, Unresolved>,
) -> bool {
    match named {
        Err(e) => out matches Err(u) && u.error == e && u.total == 0 && u.candidates@.len() == 0,
        Ok(rows) => if rows.len() == 0 {
            out matches Err(u) && u.error == ResolveError::NoMatch && u.total == 0
                && u.candidates@.len() == 0
        } else if rows.len() == 1 {
            out matches Ok(doc) && doc@ == rows[0]
        } else {
            out matches Err(u) && u.error == ResolveError::Ambiguous && u.total == rows.len()
                && rows_of(u.candidates@) == first_rows(rows, MAX_TO_PRINT as int)
        },
    }
}

impl<'a> GetDocBuilder<'a> {
    /// Turns a specifier into the list of the documents that it names, the
    /// most recently modified first.
    pub fn process(self, spec: &str) -> (r: Result<Vec<Doc>, ResolveError>)
        requires
            self.app().wf(),
        ensures
            ordered_result(
                self.accepts_zero(),
                resolution(self.app().store@, spec@),
                result_rows(r),
            ),
            spec_kind(self.app().store@, spec@) is CwdParent ==> parents_are_sound(
                self.app().store@,
            ),
    {
        let found = self.process_impl(spec);
        let ghost named = result_rows(found);
        let mut docs: Vec<Doc> = match found {
            Ok(v) => v,
            Err(e) => {
                proof {
                    assert(ordered_result(
                        self.accepts_zero(),
                        named,
                        Err::<Seq<DocData>, ResolveError>(e),
                    ));
                }
                return Err(e);
            },
        };
        if !self.zero_ok && docs.len() == 0 {
            proof {
                assert(ordered_result(
                    self.accepts_zero(),
                    named,
                    Err::<Seq<DocData>, ResolveError>(ResolveError::NoMatch),
                ));
            }
            return Err(ResolveError::NoMatch);
        }
        sort_recent_first(&mut docs);
        proof {
            assert(ordered_result(
                self.accepts_zero(),
                named,
                Ok::<Seq<DocData>, ResolveError>(rows_of(docs@)),
            ));
        }
        Ok(docs)
    }

    /// Turns a specifier into the one document that it names.
    ///
    /// Where it names none or several, that is an error; where several, the
    /// error holds the number of matches and the first 20 of them.
    pub fn process_one(self, spec: &str) -> (r: Result<Doc, Unresolved>)
        requires
            self.app().wf(),
        ensures
            single_result(resolution(self.app().store@, spec@), r),
            spec_kind(self.app().store@, spec@) is CwdParent ==> parents_are_sound(
                self.app().store@,
            ),
    {
        let found = self.process_impl(spec);
        let ghost named = result_rows(found);
        let mut docs: Vec<Doc> = match found {
            Ok(v) => v,
            Err(e) => {
                let u = Unresolved { error: e, total: 0, candidates: Vec::new() };
                proof {
                    assert(single_result(named, Err::<Doc, Unresolved>(u)));
                }
                return Err(u);
            },
        };
        let n: usize = docs.len();
        if n == 0 {
            let u = Unresolved { error: ResolveError::NoMatch, total: 0, candidates: Vec::new() };
            proof {
                assert(single_result(named, Err::<Doc, Unresolved>(u)));
            }
            return Err(u);
        }
        if n == 1 {
            let ghost rows = rows_of(docs@);
            let doc: Doc = docs.pop().unwrap();
            proof {
                assert(doc@ == rows[0]);
                assert(single_result(named, Ok::<Doc, Unresolved>(doc)));
            }
            return Ok(doc);
        }
        // Several documents matched. The candidates are cut short in case
        // their list would be very long.
        let ghost rows = rows_of(docs@);
        if n > MAX_TO_PRINT {
            docs.truncate(MAX_TO_PRINT);
        }
        let u = Unresolved { error: ResolveError::Ambiguous, total: n, candidates: docs };
        proof {
            assert(rows_of(u.candidates@) =~= first_rows(rows, MAX_TO_PRINT as int));
            assert(single_result(named, Err::<Doc, Unresolved>(u)));
        }
        Err(u)
    }

    /// All documents of the mirror.
    pub fn all(self) -> (r: Vec<Doc>)
        ensures
            rows_of(r@) == self.app().store@.docs,
    {
        self.app.store.all_documents()
    }
}


/// A specifier that is the id of a document names that document and no
/// other, whatever the names of the documents are.
pub proof fn lemma_id_comes_first(s: StoreData, spec: Seq<char>)
    requires
        has_doc(s.docs, spec),
    ensures
        spec_kind(s, spec) is Id,
        resolve_plain(s, spec) == Ok::<Seq<DocData>, ResolveError>(seq![find_doc(s.docs, spec)->0]),
        find_doc(s.docs, spec)->0.id == spec,
{
    lemma_find_doc_id(s.docs, spec);
}

} // verus!
